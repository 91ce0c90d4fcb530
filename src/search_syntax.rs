//! The query syntax: `ext:`, `size:>`, `size:<`, `dm:`, `path:` and `name:`
//! directives are taken out of the query and turn into filters; what is
//! left, with its whitespace squashed, is the keyword.

use vstd::prelude::*;
use vstd::utf8::encode_utf8;
use crate::commands::{result_views, ResultView, SearchResult};
use crate::text::{
    bytes_contain, chars_equal, chars_of, extension, extension_of, lower_of, lowercase, seq_contains,
    str_equal, string_of,
};

verus! {

/// Unicode white space, as `char::is_whitespace` and the `\s` class see it.
pub open spec fn is_ws(c: char) -> bool {
    c == '\t' || c == '\n' || c == '\x0B' || c == '\x0C' || c == '\r' || c == ' ' || c == '\u{85}'
        || c == '\u{A0}' || c == '\u{1680}' || ('\u{2000}' <= c && c <= '\u{200A}') || c
        == '\u{2028}' || c == '\u{2029}' || c == '\u{202F}' || c == '\u{205F}' || c == '\u{3000}'
}

pub fn is_ws_exec(c: char) -> (r: bool)
    ensures
        r == is_ws(c),
{
    c == '\t' || c == '\n' || c == '\x0B' || c == '\x0C' || c == '\r' || c == ' ' || c == '\u{85}'
        || c == '\u{A0}' || c == '\u{1680}' || ('\u{2000}' <= c && c <= '\u{200A}') || c
        == '\u{2028}' || c == '\u{2029}' || c == '\u{202F}' || c == '\u{205F}' || c == '\u{3000}'
}

/// The character classes that directive arguments are made of.
#[derive(Clone, Copy, PartialEq, Eq, Structural)]
pub enum CharClass {
    /// Letters, digits and commas, case-insensitively (so also `ſ` and the Kelvin sign).
    ExtChar,
    /// ASCII digits.
    Digit,
    /// Anything but white space.
    NonWs,
    /// Anything but a double quote.
    NonQuote,
}

pub open spec fn in_class(c: char, cls: CharClass) -> bool {
    match cls {
        CharClass::ExtChar => ('a' <= c && c <= 'z') || ('A' <= c && c <= 'Z') || ('0' <= c && c
            <= '9') || c == ',' || c == '\u{17F}' || c == '\u{212A}',
        CharClass::Digit => '0' <= c && c <= '9',
        CharClass::NonWs => !is_ws(c),
        CharClass::NonQuote => c != '"',
    }
}

fn in_class_exec(c: char, cls: CharClass) -> (r: bool)
    ensures
        r == in_class(c, cls),
{
    match cls {
        CharClass::ExtChar => ('a' <= c && c <= 'z') || ('A' <= c && c <= 'Z') || ('0' <= c && c
            <= '9') || c == ',' || c == '\u{17F}' || c == '\u{212A}',
        CharClass::Digit => '0' <= c && c <= '9',
        CharClass::NonWs => !is_ws_exec(c),
        CharClass::NonQuote => c != '"',
    }
}

/// Length of the longest run of `cls` characters in `t` from `j` on.
pub open spec fn run(t: Seq<char>, j: int, cls: CharClass) -> int
    decreases t.len() - j,
{
    if 0 <= j < t.len() && in_class(t[j], cls) {
        1 + run(t, j + 1, cls)
    } else {
        0
    }
}

proof fn lemma_run_bounds(t: Seq<char>, j: int, cls: CharClass)
    requires
        0 <= j,
    ensures
        0 <= run(t, j, cls),
        j <= t.len() ==> j + run(t, j, cls) <= t.len(),
        run(t, j, cls) > 0 ==> j + run(t, j, cls) <= t.len(),
        forall|k: int| j <= k < j + run(t, j, cls) ==> in_class(#[trigger] t[k], cls),
        j + run(t, j, cls) < t.len() ==> !in_class(t[j + run(t, j, cls)], cls),
    decreases t.len() - j,
{
    if 0 <= j < t.len() && in_class(t[j], cls) {
        lemma_run_bounds(t, j + 1, cls);
    }
}

fn run_exec(t: &Vec<char>, j: usize, cls: CharClass) -> (r: usize)
    ensures
        r == run(t@, j as int, cls),
{
    if j >= t.len() {
        return 0;
    }
    let mut k: usize = j;
    while k < t.len() && in_class_exec(t[k], cls)
        invariant
            j <= k <= t@.len(),
            run(t@, j as int, cls) == (k - j) + run(t@, k as int, cls),
        decreases t@.len() - k,
    {
        k = k + 1;
    }
    k - j
}

/// Character `c` of the text matches character `l` of a lower-case pattern
/// under case-insensitive matching.
pub open spec fn ci_char(c: char, l: char) -> bool {
    c == l || ('a' <= l && l <= 'z' && (c as u32) + 32 == (l as u32)) || (l == 's' && c
        == '\u{17F}') || (l == 'k' && c == '\u{212A}')
}

fn ci_char_exec(c: char, l: char) -> (r: bool)
    ensures
        r == ci_char(c, l),
{
    c == l || ('a' <= l && l <= 'z' && (c as u32) < 0xFFFF && (c as u32) + 32 == (l as u32)) || (l
        == 's' && c == '\u{17F}') || (l == 'k' && c == '\u{212A}')
}

/// The lower-case pattern `lit` occurs in `t` at `i`, case-insensitively.
pub open spec fn ci_lit(t: Seq<char>, i: int, lit: Seq<char>) -> bool {
    &&& 0 <= i
    &&& i + lit.len() <= t.len()
    &&& forall|k: int| 0 <= k < lit.len() ==> ci_char(#[trigger] t[i + k], lit[k])
}

fn ci_lit_exec(t: &Vec<char>, i: usize, lit: &Vec<char>) -> (r: bool)
    ensures
        r == ci_lit(t@, i as int, lit@),
{
    if i > t.len() || lit.len() > t.len() - i {
        return false;
    }
    let mut k: usize = 0;
    while k < lit.len()
        invariant
            i <= t.len(),
            lit.len() <= t.len() - i,
            k <= lit@.len(),
            forall|m: int| 0 <= m < k ==> ci_char(#[trigger] t@[i + m], lit@[m]),
        decreases lit@.len() - k,
    {
        if !ci_char_exec(t[i + k], lit[k]) {
            return false;
        }
        k = k + 1;
    }
    true
}

/// The directives of the query syntax.
#[derive(Clone, Copy, PartialEq, Eq, Structural)]
pub enum Directive {
    /// `ext:LIST`
    Ext,
    /// `size:>NUM{kb|mb|gb}`
    SizeMin,
    /// `size:<NUM{kb|mb|gb}`
    SizeMax,
    /// `dm:WHEN`
    Date,
    /// `path:"TEXT"`
    PathQuoted,
    /// `path:TEXT`
    PathPlain,
    /// `name:TEXT`
    Name,
}

/// The literal that starts a directive, in lower case.
pub open spec fn lead(d: Directive) -> Seq<char> {
    match d {
        Directive::Ext => seq!['e', 'x', 't', ':'],
        Directive::SizeMin => seq!['s', 'i', 'z', 'e', ':', '>'],
        Directive::SizeMax => seq!['s', 'i', 'z', 'e', ':', '<'],
        Directive::Date => seq!['d', 'm', ':'],
        Directive::PathQuoted => seq!['p', 'a', 't', 'h', ':', '"'],
        Directive::PathPlain => seq!['p', 'a', 't', 'h', ':'],
        Directive::Name => seq!['n', 'a', 'm', 'e', ':'],
    }
}

fn lead_exec(d: Directive) -> (r: Vec<char>)
    ensures
        r@ == lead(d),
{
    let r = match d {
        Directive::Ext => vec!['e', 'x', 't', ':'],
        Directive::SizeMin => vec!['s', 'i', 'z', 'e', ':', '>'],
        Directive::SizeMax => vec!['s', 'i', 'z', 'e', ':', '<'],
        Directive::Date => vec!['d', 'm', ':'],
        Directive::PathQuoted => vec!['p', 'a', 't', 'h', ':', '"'],
        Directive::PathPlain => vec!['p', 'a', 't', 'h', ':'],
        Directive::Name => vec!['n', 'a', 'm', 'e', ':'],
    };
    assert(r@ =~= lead(d));
    r
}

/// A size unit `kb`, `mb` or `gb` at `u`, case-insensitively.
pub open spec fn unit_at(t: Seq<char>, u: int) -> bool {
    ci_lit(t, u, seq!['k', 'b']) || ci_lit(t, u, seq!['m', 'b']) || ci_lit(t, u, seq!['g', 'b'])
}

/// Where the digits of a size end: after the whole part and, when a dot
/// and more digits follow, after those.
pub open spec fn size_num_end(t: Seq<char>, j: int) -> int {
    let d = run(t, j, CharClass::Digit);
    let e = j + d;
    if e < t.len() && t[e] == '.' && run(t, e + 1, CharClass::Digit) >= 1 {
        e + 1 + run(t, e + 1, CharClass::Digit)
    } else {
        e
    }
}

/// Length of the match of directive `d` at `i` in `t`, or 0 when none starts there.
pub open spec fn match_len(t: Seq<char>, i: int, d: Directive) -> int {
    let l = lead(d).len() as int;
    if !ci_lit(t, i, lead(d)) {
        0
    } else {
        match d {
            Directive::Ext => if run(t, i + l, CharClass::ExtChar) >= 1 {
                l + run(t, i + l, CharClass::ExtChar)
            } else {
                0
            },
            Directive::SizeMin | Directive::SizeMax => if run(t, i + l, CharClass::Digit) >= 1
                && unit_at(t, size_num_end(t, i + l)) {
                size_num_end(t, i + l) + 2 - i
            } else {
                0
            },
            Directive::PathQuoted => {
                let r = run(t, i + l, CharClass::NonQuote);
                if r >= 1 && i + l + r < t.len() && t[i + l + r] == '"' {
                    l + r + 1
                } else {
                    0
                }
            },
            _ => if run(t, i + l, CharClass::NonWs) >= 1 {
                l + run(t, i + l, CharClass::NonWs)
            } else {
                0
            },
        }
    }
}

proof fn lemma_match_len(t: Seq<char>, i: int, d: Directive)
    requires
        0 <= i,
    ensures
        0 <= match_len(t, i, d),
        match_len(t, i, d) > 0 ==> i + match_len(t, i, d) <= t.len(),
{
    let l = lead(d).len() as int;
    assert(seq!['k', 'b'].len() == 2);
    assert(seq!['m', 'b'].len() == 2);
    assert(seq!['g', 'b'].len() == 2);
    if ci_lit(t, i, lead(d)) {
        lemma_run_bounds(t, i + l, CharClass::ExtChar);
        lemma_run_bounds(t, i + l, CharClass::Digit);
        lemma_run_bounds(t, i + l, CharClass::NonWs);
        lemma_run_bounds(t, i + l, CharClass::NonQuote);
        let e = i + l + run(t, i + l, CharClass::Digit);
        lemma_run_bounds(t, e + 1, CharClass::Digit);
        assert(i + l <= t.len());
        if d == Directive::SizeMin || d == Directive::SizeMax {
            let u = size_num_end(t, i + l);
            assert(u <= t.len());
            if unit_at(t, u) {
                assert(u + 2 <= t.len());
            }
        }
    }
}

fn unit_at_exec(t: &Vec<char>, u: usize) -> (r: bool)
    ensures
        r == unit_at(t@, u as int),
{
    let kb = vec!['k', 'b'];
    let mb = vec!['m', 'b'];
    let gb = vec!['g', 'b'];
    assert(kb@ =~= seq!['k', 'b']);
    assert(mb@ =~= seq!['m', 'b']);
    assert(gb@ =~= seq!['g', 'b']);
    ci_lit_exec(t, u, &kb) || ci_lit_exec(t, u, &mb) || ci_lit_exec(t, u, &gb)
}

fn size_num_end_exec(t: &Vec<char>, j: usize) -> (r: usize)
    requires
        j <= t@.len(),
    ensures
        r == size_num_end(t@, j as int),
        r <= t@.len(),
{
    let d = run_exec(t, j, CharClass::Digit);
    proof {
        lemma_run_bounds(t@, j as int, CharClass::Digit);
    }
    let n = t.len();
    assert(j + d <= n);
    let e = j + d;
    if e < t.len() && t[e] == '.' {
        let f = run_exec(t, e + 1, CharClass::Digit);
        proof {
            lemma_run_bounds(t@, e + 1, CharClass::Digit);
        }
        if f >= 1 {
            return e + 1 + f;
        }
    }
    e
}

fn match_len_exec(t: &Vec<char>, i: usize, d: Directive) -> (r: usize)
    ensures
        r == match_len(t@, i as int, d),
{
    let lit = lead_exec(d);
    if !ci_lit_exec(t, i, &lit) {
        return 0;
    }
    let l = lit.len();
    let n = t.len();
    assert(i + l <= n);
    proof {
        lemma_match_len(t@, i as int, d);
        lemma_run_bounds(t@, i + l, CharClass::ExtChar);
        lemma_run_bounds(t@, i + l, CharClass::Digit);
        lemma_run_bounds(t@, i + l, CharClass::NonWs);
        lemma_run_bounds(t@, i + l, CharClass::NonQuote);
    }
    match d {
        Directive::Ext => {
            let r = run_exec(t, i + l, CharClass::ExtChar);
            if r >= 1 {
                l + r
            } else {
                0
            }
        },
        Directive::SizeMin | Directive::SizeMax => {
            let r = run_exec(t, i + l, CharClass::Digit);
            if r >= 1 {
                let u = size_num_end_exec(t, i + l);
                if unit_at_exec(t, u) {
                    u + 2 - i
                } else {
                    0
                }
            } else {
                0
            }
        },
        Directive::PathQuoted => {
            let r = run_exec(t, i + l, CharClass::NonQuote);
            if r >= 1 && i + l + r < t.len() && t[i + l + r] == '"' {
                l + r + 1
            } else {
                0
            }
        },
        _ => {
            let r = run_exec(t, i + l, CharClass::NonWs);
            if r >= 1 {
                l + r
            } else {
                0
            }
        },
    }
}

/// `t` from `i` on with every match of `d` taken out, scanning left to
/// right and resuming after each match.
pub open spec fn strip_from(t: Seq<char>, i: int, d: Directive) -> Seq<char>
    decreases t.len() - i,
{
    if i < 0 || i >= t.len() {
        Seq::empty()
    } else if match_len(t, i, d) > 0 && i + match_len(t, i, d) <= t.len() {
        strip_from(t, i + match_len(t, i, d), d)
    } else {
        seq![t[i]] + strip_from(t, i + 1, d)
    }
}

/// The start of the leftmost match of `d` in `t` at or after `i`.
pub open spec fn first_from(t: Seq<char>, i: int, d: Directive) -> Option<int>
    decreases t.len() - i,
{
    if i < 0 || i >= t.len() {
        None
    } else if match_len(t, i, d) > 0 {
        Some(i)
    } else {
        first_from(t, i + 1, d)
    }
}

/// `t` with every match of `d` taken out.
pub open spec fn strip(t: Seq<char>, d: Directive) -> Seq<char> {
    strip_from(t, 0, d)
}

/// The start of the leftmost match of `d` in `t`.
pub open spec fn first(t: Seq<char>, d: Directive) -> Option<int> {
    first_from(t, 0, d)
}

proof fn lemma_first_from(t: Seq<char>, i: int, d: Directive)
    requires
        0 <= i,
    ensures
        match first_from(t, i, d) {
            Some(p) => i <= p < t.len() && match_len(t, p, d) > 0,
            None => true,
        },
    decreases t.len() - i,
{
    if i < t.len() && match_len(t, i, d) == 0 {
        lemma_first_from(t, i + 1, d);
    }
}

/// Takes every match of `d` out of `t`.
fn strip_exec(t: &Vec<char>, d: Directive) -> (r: Vec<char>)
    ensures
        r@ == strip(t@, d),
{
    let mut out: Vec<char> = Vec::new();
    let mut i: usize = 0;
    while i < t.len()
        invariant
            i <= t@.len(),
            strip(t@, d) == out@ + strip_from(t@, i as int, d),
        decreases t@.len() - i,
    {
        let m = match_len_exec(t, i, d);
        proof {
            lemma_match_len(t@, i as int, d);
        }
        if m > 0 {
            i = i + m;
        } else {
            let ghost rest = strip_from(t@, i + 1, d);
            let ghost prev = out@;
            out.push(t[i]);
            assert(out@ + rest =~= prev + (seq![t@[i as int]] + rest));
            i = i + 1;
        }
    }
    assert(out@ + strip_from(t@, i as int, d) =~= out@);
    out
}

/// The start of the leftmost match of `d` in `t`, if any.
fn first_exec(t: &Vec<char>, d: Directive) -> (r: Option<usize>)
    ensures
        match r {
            Some(p) => first(t@, d) == Some(p as int),
            None => first(t@, d) is None,
        },
{
    let mut i: usize = 0;
    while i < t.len()
        invariant
            i <= t@.len(),
            first(t@, d) == first_from(t@, i as int, d),
        decreases t@.len() - i,
    {
        if match_len_exec(t, i, d) > 0 {
            return Some(i);
        }
        i = i + 1;
    }
    None
}


/// The numeric value of an ASCII digit.
pub open spec fn digit(c: char) -> nat {
    ((c as u32) - ('0' as u32)) as nat
}

pub open spec fn pow10(n: nat) -> nat
    decreases n,
{
    if n == 0 {
        1
    } else {
        10 * pow10((n - 1) as nat)
    }
}

/// The value of a string of decimal digits.
pub open spec fn dec(s: Seq<char>) -> nat
    decreases s.len(),
{
    if s.len() == 0 {
        0
    } else {
        digit(s[0]) * pow10((s.len() - 1) as nat) + dec(s.drop_first())
    }
}

proof fn lemma_pow10_pos(n: nat)
    ensures
        pow10(n) >= 1,
    decreases n,
{
    if n > 0 {
        lemma_pow10_pos((n - 1) as nat);
    }
}

proof fn lemma_dec_push(s: Seq<char>, c: char)
    ensures
        dec(s.push(c)) == dec(s) * 10 + digit(c),
    decreases s.len(),
{
    let sc = s.push(c);
    if s.len() == 0 {
        assert(sc.drop_first() =~= Seq::<char>::empty());
        assert(sc[0] == c);
        assert(pow10(0) == 1);
        assert(dec(sc.drop_first()) == 0);
        assert(dec(sc) == digit(c) * pow10(0) + dec(sc.drop_first()));
    } else {
        assert(sc[0] == s[0]);
        let r = s.drop_first();
        assert(sc.drop_first() =~= r.push(c));
        lemma_dec_push(r, c);
        let a = digit(s[0]);
        let p = pow10((s.len() - 1) as nat);
        assert(pow10(s.len() as nat) == 10 * p);
        assert(dec(sc) == a * pow10(s.len() as nat) + dec(r.push(c)));
        assert(dec(s) == a * p + dec(r));
        assert(a * (10 * p) + (dec(r) * 10 + digit(c)) == (a * p + dec(r)) * 10 + digit(c))
            by (nonlinear_arith);
    }
}

proof fn lemma_dec_mono(s: Seq<char>, k: int)
    requires
        0 <= k <= s.len(),
    ensures
        dec(s.subrange(0, k)) <= dec(s),
    decreases s.len(),
{
    if k < s.len() {
        let u = s.drop_last();
        lemma_dec_mono(u, k);
        assert(u.push(s.last()) =~= s);
        lemma_dec_push(u, s.last());
        assert(u.subrange(0, k) =~= s.subrange(0, k));
    } else {
        assert(s.subrange(0, k) =~= s);
    }
}

/// Reads the digits `t[a..b]`. Says whether their value exceeds `u64::MAX`;
/// when it does not, returns it.
fn parse_digits(t: &Vec<char>, a: usize, b: usize) -> (r: (u64, bool))
    requires
        a <= b <= t@.len(),
        forall|k: int| a <= k < b ==> '0' <= #[trigger] t@[k] <= '9',
    ensures
        r.1 == (dec(t@.subrange(a as int, b as int)) > u64::MAX),
        !r.1 ==> r.0 == dec(t@.subrange(a as int, b as int)),
{
    let mut acc: u64 = 0;
    let mut i: usize = a;
    assert(t@.subrange(a as int, a as int) =~= Seq::<char>::empty());
    while i < b
        invariant
            a <= i <= b <= t@.len(),
            forall|k: int| a <= k < b ==> '0' <= #[trigger] t@[k] <= '9',
            acc == dec(t@.subrange(a as int, i as int)),
        decreases b - i,
    {
        let d = (t[i] as u32 - '0' as u32) as u64;
        proof {
            assert(t@.subrange(a as int, i + 1) =~= t@.subrange(a as int, i as int).push(t@[i as int]));
            lemma_dec_push(t@.subrange(a as int, i as int), t@[i as int]);
        }
        if acc > (u64::MAX - d) / 10 {
            proof {
                assert(acc * 10 + d > u64::MAX) by (nonlinear_arith)
                    requires acc > (u64::MAX - d) / 10, d <= 9;
                let whole = t@.subrange(a as int, b as int);
                lemma_dec_mono(whole, i + 1 - a);
                assert(whole.subrange(0, i + 1 - a) =~= t@.subrange(a as int, i + 1));
            }
            return (0, true);
        }
        acc = acc * 10 + d;
        i = i + 1;
    }
    (acc, false)
}

/// `floor(0.f * m)` for the fraction digits `f`, computed from the last digit up.
pub open spec fn frac_scaled(f: Seq<char>, m: nat) -> nat
    decreases f.len(),
{
    if f.len() == 0 {
        0
    } else {
        (m * digit(f[0]) + frac_scaled(f.drop_first(), m)) / 10
    }
}

proof fn lemma_floor_step(a: nat, b: nat, c: nat)
    requires
        c > 0,
    ensures
        (a + b / c) / 10 == (a * c + b) / (10 * c),
{
    let q = b / c;
    let r = b % c;
    vstd::arithmetic::div_mod::lemma_fundamental_div_mod(b as int, c as int);
    let s = (a + q) / 10;
    let u = (a + q) % 10;
    vstd::arithmetic::div_mod::lemma_fundamental_div_mod((a + q) as int, 10);
    assert(a * c + b == s * (10 * c) + (u * c + r)) by (nonlinear_arith)
        requires b == q * c + r, a + q == 10 * s + u;
    assert(u * c + r < 10 * c) by (nonlinear_arith)
        requires u < 10, r < c;
    vstd::arithmetic::div_mod::lemma_fundamental_div_mod_converse(
        (a * c + b) as int,
        (10 * c) as int,
        s as int,
        (u * c + r) as int,
    );
}

proof fn lemma_frac_scaled(f: Seq<char>, m: nat)
    ensures
        frac_scaled(f, m) == (dec(f) * m) / pow10(f.len()),
    decreases f.len(),
{
    if f.len() == 0 {
        assert(pow10(0) == 1);
        assert(dec(f) == 0);
    } else {
        let r = f.drop_first();
        lemma_frac_scaled(r, m);
        let p = pow10(r.len());
        lemma_pow10_pos(r.len());
        let a = digit(f[0]);
        assert(pow10(f.len()) == 10 * p);
        assert(dec(f) == a * p + dec(r));
        assert(frac_scaled(f, m) == (m * a + frac_scaled(r, m)) / 10);
        assert(frac_scaled(r, m) == (dec(r) * m) / p);
        lemma_floor_step(m * a, dec(r) * m, p);
        assert((m * a) * p + dec(r) * m == (a * p + dec(r)) * m) by (nonlinear_arith);
        assert((m * a + (dec(r) * m) / p) / 10 == ((a * p + dec(r)) * m) / (10 * p));
    }
}

/// The multiplier of the size unit at `u`: kilo-, mega- or gigabytes.
pub open spec fn unit_mult(t: Seq<char>, u: int) -> nat {
    if ci_char(t[u], 'k') {
        1024
    } else if ci_char(t[u], 'm') {
        1048576
    } else {
        1073741824
    }
}

/// The bytes that a size directive matched at `p` stands for: its decimal
/// number times its unit, rounded down, at most `u64::MAX`.
pub open spec fn size_value(t: Seq<char>, p: int) -> u64 {
    let j = p + 6;
    let e = j + run(t, j, CharClass::Digit);
    let u = size_num_end(t, j);
    let whole = dec(t.subrange(j, e));
    let frac = if u > e {
        t.subrange(e + 1, u)
    } else {
        Seq::empty()
    };
    let v = ((whole * pow10(frac.len()) + dec(frac)) * unit_mult(t, u)) / pow10(frac.len());
    if v > u64::MAX {
        u64::MAX
    } else {
        v as u64
    }
}

fn size_value_exec(t: &Vec<char>, p: usize) -> (r: u64)
    requires
        p < t@.len(),
        match_len(t@, p as int, Directive::SizeMin) > 0 || match_len(t@, p as int, Directive::SizeMax)
            > 0,
    ensures
        r == size_value(t@, p as int),
{
    proof {
        lemma_match_len(t@, p as int, Directive::SizeMin);
        lemma_match_len(t@, p as int, Directive::SizeMax);
        assert(lead(Directive::SizeMin).len() == 6);
        assert(lead(Directive::SizeMax).len() == 6);
        assert(ci_lit(t@, p as int, lead(Directive::SizeMin)) || ci_lit(
            t@,
            p as int,
            lead(Directive::SizeMax),
        ));
        lemma_run_bounds(t@, p + 6, CharClass::Digit);
    }
    let n = t.len();
    assert(p + 6 <= n);
    let j = p + 6;
    let d = run_exec(t, j, CharClass::Digit);
    let e = j + d;
    let u = size_num_end_exec(t, j);
    let ghost frac = if u > e {
        t@.subrange(e + 1, u as int)
    } else {
        Seq::<char>::empty()
    };
    proof {
        assert(seq!['k', 'b'].len() == 2);
        assert(u + 2 <= t@.len());
        if u > e {
            lemma_run_bounds(t@, e + 1, CharClass::Digit);
        }
    }
    let mult: u64 = if ci_char_exec(t[u], 'k') {
        1024
    } else if ci_char_exec(t[u], 'm') {
        1048576
    } else {
        1073741824
    };
    let (whole, over) = parse_digits(t, j, e);
    if over {
        proof {
            lemma_pow10_pos(frac.len());
            let w = dec(t@.subrange(j as int, e as int));
            let pf = pow10(frac.len());
            let df = dec(frac);
            assert((w * pf + df) * mult >= w * pf) by (nonlinear_arith)
                requires mult >= 1;
            vstd::arithmetic::div_mod::lemma_div_is_ordered((w * pf) as int, ((w * pf + df) * mult) as int, pf as int);
            vstd::arithmetic::div_mod::lemma_div_by_multiple(w as int, pf as int);
        }
        return u64::MAX;
    }
    let mut fs: u64 = 0;
    if u > e {
        let mut k: usize = u;
        assert(t@.subrange(k as int, u as int) =~= Seq::<char>::empty());
        while k > e + 1
            invariant
                e + 1 <= k <= u <= t@.len(),
                forall|q: int| e + 1 <= q < u ==> '0' <= #[trigger] t@[q] <= '9',
                fs == frac_scaled(t@.subrange(k as int, u as int), mult as nat),
                fs < mult,
                mult <= 1073741824,
            decreases k,
        {
            let dd = (t[k - 1] as u32 - '0' as u32) as u64;
            proof {
                assert(t@.subrange(k - 1, u as int).drop_first() =~= t@.subrange(k as int, u as int));
                assert(t@.subrange(k - 1, u as int)[0] == t@[k - 1]);
                assert((mult * dd + fs) / 10 < mult) by (nonlinear_arith)
                    requires dd <= 9, fs < mult, mult > 0;
            }
            fs = (mult * dd + fs) / 10;
            k = k - 1;
        }
        proof {
            lemma_frac_scaled(frac, mult as nat);
        }
    } else {
        assert(frac_scaled(frac, mult as nat) == 0);
    }
    proof {
        lemma_frac_scaled(frac, mult as nat);
        lemma_pow10_pos(frac.len());
        let w = whole as nat;
        let pf = pow10(frac.len());
        let df = dec(frac);
        let mm = mult as nat;
        assert((w * pf + df) * mm == (w * mm) * pf + df * mm) by (nonlinear_arith);
        assert(((w * mm) * pf + df * mm) / pf == w * mm + (df * mm) / pf) by {
            let x = df * mm;
            vstd::arithmetic::div_mod::lemma_fundamental_div_mod(x as int, pf as int);
            let q0 = x / pf;
            let r0 = x % pf;
            assert((w * mm) * pf + x == (w * mm + q0) * pf + r0) by (nonlinear_arith)
                requires x == pf * q0 + r0;
            vstd::arithmetic::div_mod::lemma_fundamental_div_mod_converse(
                ((w * mm) * pf + x) as int,
                pf as int,
                (w * mm + q0) as int,
                r0 as int,
            );
        }
    }
    assert((whole as u128) * (mult as u128) <= 0xFFFF_FFFF_FFFF_FFFFu128 * 1073741824u128)
        by (nonlinear_arith)
        requires
            whole <= 0xFFFF_FFFF_FFFF_FFFFu64,
            mult <= 1073741824u64,
    ;
    let total: u128 = (whole as u128) * (mult as u128) + (fs as u128);
    if total > u64::MAX as u128 {
        u64::MAX
    } else {
        total as u64
    }
}


/// What directive `d`, matched at `p`, hands on: the text after its lead
/// (without the closing quote of a quoted path).
pub open spec fn capture(t: Seq<char>, p: int, d: Directive) -> Seq<char> {
    let l = lead(d).len() as int;
    let m = match_len(t, p, d);
    if d == Directive::PathQuoted {
        t.subrange(p + l, p + m - 1)
    } else {
        t.subrange(p + l, p + m)
    }
}

fn capture_exec(t: &Vec<char>, p: usize, d: Directive) -> (r: String)
    requires
        p < t@.len(),
        match_len(t@, p as int, d) > 0,
    ensures
        r@ == capture(t@, p as int, d),
{
    let m = match_len_exec(t, p, d);
    let l = lead_exec(d).len();
    proof {
        lemma_match_len(t@, p as int, d);
        assert(ci_lit(t@, p as int, lead(d)));
        lemma_run_bounds(t@, p + l, CharClass::NonQuote);
    }
    let n = t.len();
    assert(p + m <= n);
    let end = if d == Directive::PathQuoted {
        p + m - 1
    } else {
        p + m
    };
    assert(p + l <= end);
    let mut out: Vec<char> = Vec::new();
    let mut i: usize = p + l;
    while i < end
        invariant
            p + l <= i <= end <= t@.len(),
            out@ =~= t@.subrange(p + l, i as int),
        decreases end - i,
    {
        out.push(t[i]);
        i = i + 1;
    }
    string_of(out.as_slice())
}

/// `t` from `i` on with its white-space runs squashed to single spaces and
/// trimmed at both ends; `started` tells whether a word came before `i`,
/// `gap` whether white space came after the last word.
pub open spec fn squash_from(t: Seq<char>, i: int, started: bool, gap: bool) -> Seq<char>
    decreases t.len() - i,
{
    if i < 0 || i >= t.len() {
        Seq::empty()
    } else if is_ws(t[i]) {
        squash_from(t, i + 1, started, started)
    } else {
        (if gap {
            seq![' ']
        } else {
            Seq::empty()
        }) + seq![t[i]] + squash_from(t, i + 1, true, false)
    }
}

/// The words of `t`, joined by single spaces.
pub open spec fn squash(t: Seq<char>) -> Seq<char> {
    squash_from(t, 0, false, false)
}

fn squash_exec(t: &Vec<char>) -> (r: Vec<char>)
    ensures
        r@ == squash(t@),
{
    let mut out: Vec<char> = Vec::new();
    let mut started = false;
    let mut gap = false;
    let mut i: usize = 0;
    while i < t.len()
        invariant
            i <= t@.len(),
            squash(t@) == out@ + squash_from(t@, i as int, started, gap),
        decreases t@.len() - i,
    {
        let c = t[i];
        if is_ws_exec(c) {
            gap = started;
        } else {
            let ghost prev = out@;
            let ghost g = gap;
            if gap {
                out.push(' ');
            }
            out.push(c);
            proof {
                let rest = squash_from(t@, i + 1, true, false);
                let head: Seq<char> = if g {
                    seq![' ']
                } else {
                    Seq::empty()
                };
                assert(out@ =~= prev + head + seq![c]);
                assert(out@ + rest =~= prev + (head + seq![c] + rest));
            }
            started = true;
            gap = false;
        }
        i = i + 1;
    }
    assert(out@ + squash_from(t@, i as int, started, gap) =~= out@);
    out
}

/// The comma-separated parts of `s` from `i` on, `cur` being the part read so far.
pub open spec fn comma_parts(s: Seq<char>, i: int, cur: Seq<char>) -> Seq<Seq<char>>
    decreases s.len() - i,
{
    if i < 0 || i >= s.len() {
        seq![cur]
    } else if s[i] == ',' {
        seq![cur] + comma_parts(s, i + 1, Seq::empty())
    } else {
        comma_parts(s, i + 1, cur.push(s[i]))
    }
}

pub open spec fn nonempty() -> spec_fn(Seq<char>) -> bool {
    |e: Seq<char>| e.len() > 0
}

/// The extensions an `ext:` list names: its comma-separated parts,
/// case-folded, without the empty ones.
pub open spec fn ext_pieces(cap: Seq<char>) -> Seq<Seq<char>> {
    comma_parts(cap, 0, Seq::empty()).map_values(|e: Seq<char>| lower_of(e)).filter(nonempty())
}

/// The extensions of every `ext:` directive of `t` from `i` on, in order.
pub open spec fn ext_list_from(t: Seq<char>, i: int) -> Seq<Seq<char>>
    decreases t.len() - i,
{
    if i < 0 || i >= t.len() {
        Seq::empty()
    } else if match_len(t, i, Directive::Ext) > 0 && i + match_len(t, i, Directive::Ext)
        <= t.len() {
        ext_pieces(capture(t, i, Directive::Ext)) + ext_list_from(
            t,
            i + match_len(t, i, Directive::Ext),
        )
    } else {
        ext_list_from(t, i + 1)
    }
}

pub open spec fn string_views(v: Seq<String>) -> Seq<Seq<char>> {
    v.map_values(|s: String| s@)
}

/// Appends the extensions that one `ext:` list names.
fn push_ext_pieces(cap: &String, out: &mut Vec<String>)
    ensures
        string_views(final(out)@) == string_views(old(out)@) + ext_pieces(cap@),
{
    let cs = chars_of(cap.as_str());
    let ghost parts = comma_parts(cs@, 0, Seq::empty());
    let ghost lowered = parts.map_values(|e: Seq<char>| lower_of(e));
    let mut cur: Vec<char> = Vec::new();
    let ghost mut done: Seq<Seq<char>> = Seq::empty();
    let ghost base = string_views(out@);
    let mut i: usize = 0;
    assert(comma_parts(cs@, 0, Seq::empty()) == Seq::<Seq<char>>::empty() + comma_parts(cs@, 0, cur@));
    while i < cs.len()
        invariant
            i <= cs@.len(),
            cs@ == cap@,
            parts == comma_parts(cs@, 0, Seq::empty()),
            lowered == parts.map_values(|e: Seq<char>| lower_of(e)),
            parts == done + comma_parts(cs@, i as int, cur@),
            string_views(out@) == base + done.map_values(|e: Seq<char>| lower_of(e)).filter(nonempty()),
        decreases cs@.len() - i,
    {
        let c = cs[i];
        if c == ',' {
            let piece = string_of(cur.as_slice());
            let low = lowercase(piece.as_str());
            let ghost prev_done = done;
            let ghost prev_out = string_views(out@);
            proof {
                assert(parts =~= done.push(cur@) + comma_parts(cs@, i + 1, Seq::empty()));
            }
            proof {
                done = done.push(cur@);
            }
            let is_empty = low.as_str().is_empty();
            if !is_empty {
                out.push(low);
            }
            proof {
                let f = |e: Seq<char>| lower_of(e);
                let x = done.map_values(f);
                assert(x =~= prev_done.map_values(f).push(lower_of(cur@)));
                assert(x.drop_last() =~= prev_done.map_values(f));
                assert(x.last() == low@);
                reveal(Seq::filter);
                assert(x.filter(nonempty()) == (if low@.len() > 0 {
                    x.drop_last().filter(nonempty()).push(low@)
                } else {
                    x.drop_last().filter(nonempty())
                }));
                if !is_empty {
                    assert(string_views(out@) =~= prev_out.push(low@));
                } else {
                    assert(string_views(out@) =~= prev_out);
                }
                assert(string_views(out@) =~= base + x.filter(nonempty()));
            }
            cur = Vec::new();
        } else {
            proof {
                assert(comma_parts(cs@, i as int, cur@) == comma_parts(cs@, i + 1, cur@.push(c)));
            }
            cur.push(c);
        }
        i = i + 1;
    }
    let piece = string_of(cur.as_slice());
    let low = lowercase(piece.as_str());
    let ghost prev_done = done;
    let ghost prev_out = string_views(out@);
    proof {
        assert(parts =~= done.push(cur@));
    }
    proof {
        done = done.push(cur@);
    }
    let is_empty = low.as_str().is_empty();
    if !is_empty {
        out.push(low);
    }
    proof {
        if !is_empty {
            assert(string_views(out@) =~= prev_out.push(low@));
        } else {
            assert(string_views(out@) =~= prev_out);
        }
        let f = |e: Seq<char>| lower_of(e);
        let x = done.map_values(f);
        assert(x =~= prev_done.map_values(f).push(lower_of(cur@)));
        assert(x.drop_last() =~= prev_done.map_values(f));
        assert(x.last() == low@);
        reveal(Seq::filter);
        assert(x.filter(nonempty()) == (if low@.len() > 0 {
            x.drop_last().filter(nonempty()).push(low@)
        } else {
            x.drop_last().filter(nonempty())
        }));
        assert(done == parts);
        assert(string_views(out@) =~= base + x.filter(nonempty()));
    }
}

/// Takes the `ext:` directives out of `t`, gathering the extensions they name.
fn extract_ext_exec(t: &Vec<char>) -> (r: (Vec<char>, Vec<String>))
    ensures
        r.0@ == strip(t@, Directive::Ext),
        string_views(r.1@) == ext_list_from(t@, 0),
{
    let mut out: Vec<char> = Vec::new();
    let mut exts: Vec<String> = Vec::new();
    let mut i: usize = 0;
    while i < t.len()
        invariant
            i <= t@.len(),
            strip(t@, Directive::Ext) == out@ + strip_from(t@, i as int, Directive::Ext),
            ext_list_from(t@, 0) == string_views(exts@) + ext_list_from(t@, i as int),
        decreases t@.len() - i,
    {
        let m = match_len_exec(t, i, Directive::Ext);
        proof {
            lemma_match_len(t@, i as int, Directive::Ext);
        }
        if m > 0 {
            let cap = capture_exec(t, i, Directive::Ext);
            let ghost prev = string_views(exts@);
            push_ext_pieces(&cap, &mut exts);
            assert(string_views(exts@) + ext_list_from(t@, i + m) =~= prev + (ext_pieces(
                capture(t@, i as int, Directive::Ext),
            ) + ext_list_from(t@, i + m)));
            i = i + m;
        } else {
            let ghost rest = strip_from(t@, i + 1, Directive::Ext);
            let ghost prev = out@;
            out.push(t[i]);
            assert(out@ + rest =~= prev + (seq![t@[i as int]] + rest));
            i = i + 1;
        }
    }
    assert(out@ + strip_from(t@, i as int, Directive::Ext) =~= out@);
    assert(string_views(exts@) + ext_list_from(t@, i as int) =~= string_views(exts@));
    (out, exts)
}


pub const SECS_PER_DAY: u64 = 86400;

pub open spec fn sat_sub(a: u64, b: u64) -> u64 {
    if a >= b {
        (a - b) as u64
    } else {
        0
    }
}

pub open spec fn sat_mul(a: u64, b: u64) -> u64 {
    if a * b > u64::MAX {
        u64::MAX
    } else {
        (a * b) as u64
    }
}

/// `NUMd`, `NUMh` or `NUMm`: ASCII digits, then one unit letter.
pub open spec fn relative_form(ds: Seq<char>) -> bool {
    &&& ds.len() >= 2
    &&& forall|k: int| 0 <= k < ds.len() - 1 ==> '0' <= #[trigger] ds[k] <= '9'
    &&& (ds.last() == 'd' || ds.last() == 'h' || ds.last() == 'm')
}

/// The number of a relative date; a number too large for `u64` reads as 0.
pub open spec fn relative_count(ds: Seq<char>) -> u64 {
    let v = dec(ds.drop_last());
    if v > u64::MAX {
        0
    } else {
        v as u64
    }
}

pub open spec fn relative_unit(c: char) -> u64 {
    if c == 'd' {
        SECS_PER_DAY
    } else if c == 'h' {
        3600
    } else {
        60
    }
}

/// The earliest modification time that a case-folded `dm:` value admits,
/// at time `now` (seconds since the epoch). Subtractions stop at zero.
pub open spec fn date_value(ds: Seq<char>, now: u64) -> Option<u64> {
    if ds == seq!['t', 'o', 'd', 'a', 'y'] {
        Some((now - now % SECS_PER_DAY) as u64)
    } else if ds == seq!['y', 'e', 's', 't', 'e', 'r', 'd', 'a', 'y'] {
        Some(sat_sub((now - now % SECS_PER_DAY) as u64, SECS_PER_DAY))
    } else if ds == seq!['w', 'e', 'e', 'k'] {
        Some(sat_sub(now, 604800))
    } else if ds == seq!['m', 'o', 'n', 't', 'h'] {
        Some(sat_sub(now, 2592000))
    } else if ds == seq!['y', 'e', 'a', 'r'] {
        Some((now - now % 31536000) as u64)
    } else if relative_form(ds) {
        Some(sat_sub(now, sat_mul(relative_count(ds), relative_unit(ds.last()))))
    } else {
        None
    }
}

/// Whether `ds[..n]` is all ASCII digits.
fn all_digits(ds: &Vec<char>, n: usize) -> (r: bool)
    requires
        n <= ds@.len(),
    ensures
        r == forall|q: int| 0 <= q < n ==> '0' <= #[trigger] ds@[q] <= '9',
{
    let mut k: usize = 0;
    while k < n
        invariant
            n <= ds@.len(),
            k <= n,
            forall|q: int| 0 <= q < k ==> '0' <= #[trigger] ds@[q] <= '9',
        decreases n - k,
    {
        if !('0' <= ds[k] && ds[k] <= '9') {
            assert(!('0' <= ds@[k as int] <= '9'));
            return false;
        }
        k = k + 1;
    }
    true
}

/// The date bound of a `dm:` value that is already case-folded.
pub fn date_after_of(ds: &Vec<char>, now: u64) -> (r: Option<u64>)
    ensures
        r == date_value(ds@, now),
{
    let today = vec!['t', 'o', 'd', 'a', 'y'];
    let yesterday = vec!['y', 'e', 's', 't', 'e', 'r', 'd', 'a', 'y'];
    let week = vec!['w', 'e', 'e', 'k'];
    let month = vec!['m', 'o', 'n', 't', 'h'];
    let year = vec!['y', 'e', 'a', 'r'];
    assert(today@ =~= seq!['t', 'o', 'd', 'a', 'y']);
    assert(yesterday@ =~= seq!['y', 'e', 's', 't', 'e', 'r', 'd', 'a', 'y']);
    assert(week@ =~= seq!['w', 'e', 'e', 'k']);
    assert(month@ =~= seq!['m', 'o', 'n', 't', 'h']);
    assert(year@ =~= seq!['y', 'e', 'a', 'r']);
    let day_start = now - now % SECS_PER_DAY;
    if chars_equal(ds.as_slice(), today.as_slice()) {
        Some(day_start)
    } else if chars_equal(ds.as_slice(), yesterday.as_slice()) {
        Some(day_start.saturating_sub(SECS_PER_DAY))
    } else if chars_equal(ds.as_slice(), week.as_slice()) {
        Some(now.saturating_sub(604800))
    } else if chars_equal(ds.as_slice(), month.as_slice()) {
        Some(now.saturating_sub(2592000))
    } else if chars_equal(ds.as_slice(), year.as_slice()) {
        Some(now - now % 31536000)
    } else {
        let n = ds.len();
        if n < 2 {
            return None;
        }
        let last = ds[n - 1];
        assert(ds@.last() == last);
        if !(last == 'd' || last == 'h' || last == 'm') {
            return None;
        }
        if !all_digits(ds, n - 1) {
            return None;
        }
        let (count, over) = parse_digits(ds, 0, n - 1);
        proof {
            assert(ds@.subrange(0, n - 1) =~= ds@.drop_last());
        }
        let c = if over {
            0
        } else {
            count
        };
        let unit: u64 = if last == 'd' {
            SECS_PER_DAY
        } else if last == 'h' {
            3600
        } else {
            60
        };
        let span: u64 = if c > u64::MAX / unit {
            proof {
                assert(c * unit > u64::MAX) by (nonlinear_arith)
                    requires c > u64::MAX / unit, unit > 0;
            }
            u64::MAX
        } else {
            proof {
                assert(c * unit <= u64::MAX) by (nonlinear_arith)
                    requires c <= u64::MAX / unit, unit > 0;
            }
            c * unit
        };
        let r = now.saturating_sub(span);
        proof {
            assert(ds@.last() == last);
            assert(relative_form(ds@));
            assert(span == sat_mul(relative_count(ds@), relative_unit(ds@.last())));
            assert(r == sat_sub(now, span));
        }
        Some(r)
    }
}

/// Filters that a query's directives ask for.
#[derive(Clone, Debug, Default)]
pub struct SearchFilters {
    pub ext: Vec<String>,
    pub size_min: u64,
    pub size_max: u64,
    pub date_after: Option<u64>,
    pub path: String,
    pub name_pattern: String,
}

pub struct FiltersView {
    pub ext: Seq<Seq<char>>,
    pub size_min: u64,
    pub size_max: u64,
    pub date_after: Option<u64>,
    pub path: Seq<char>,
    pub name_pattern: Seq<char>,
}

impl View for SearchFilters {
    type V = FiltersView;

    open spec fn view(&self) -> FiltersView {
        FiltersView {
            ext: string_views(self.ext@),
            size_min: self.size_min,
            size_max: self.size_max,
            date_after: self.date_after,
            path: self.path@,
            name_pattern: self.name_pattern@,
        }
    }
}

/// What the first match of `d` in `t` captured, or nothing.
pub open spec fn first_capture(t: Seq<char>, d: Directive) -> Seq<char> {
    match first(t, d) {
        Some(p) => capture(t, p, d),
        None => Seq::empty(),
    }
}

/// Query text after the `ext:` and size directives are taken out.
pub open spec fn after_sizes(q: Seq<char>) -> Seq<char> {
    strip(strip(strip(q, Directive::Ext), Directive::SizeMin), Directive::SizeMax)
}

/// Query text after the date directives are taken out too.
pub open spec fn after_date(q: Seq<char>) -> Seq<char> {
    strip(after_sizes(q), Directive::Date)
}

/// Query text after the path directives are taken out too: the quoted form
/// when the text holds one, else the plain form.
pub open spec fn after_path(q: Seq<char>) -> Seq<char> {
    let t = after_date(q);
    if first(t, Directive::PathQuoted) is Some {
        strip(t, Directive::PathQuoted)
    } else {
        strip(t, Directive::PathPlain)
    }
}

/// `t` with every colon turned into a space.
pub open spec fn decolon(t: Seq<char>) -> Seq<char> {
    t.map_values(|c: char| if c == ':' { ' ' } else { c })
}

/// The keyword of a query: what is left when every directive is taken out,
/// its words joined by single spaces. A file name cannot hold a colon, so a
/// colon that no directive took (such as `dm:` with nothing after it)
/// separates words instead.
pub open spec fn keyword_of(q: Seq<char>) -> Seq<char> {
    squash(decolon(strip(after_path(q), Directive::Name)))
}

fn decolon_exec(t: &Vec<char>) -> (r: Vec<char>)
    ensures
        r@ == decolon(t@),
{
    let mut out: Vec<char> = Vec::new();
    let mut i: usize = 0;
    while i < t.len()
        invariant
            i <= t@.len(),
            out@ =~= decolon(t@.subrange(0, i as int)),
        decreases t@.len() - i,
    {
        if t[i] == ':' {
            out.push(' ');
        } else {
            out.push(t[i]);
        }
        i = i + 1;
    }
    assert(t@.subrange(0, t@.len() as int) =~= t@);
    out
}

/// The filters of a query, at time `now`.
pub open spec fn filters_of(q: Seq<char>, now: u64) -> FiltersView {
    let t1 = strip(q, Directive::Ext);
    let t2 = strip(t1, Directive::SizeMin);
    let t3 = strip(t2, Directive::SizeMax);
    let t4 = after_date(q);
    FiltersView {
        ext: ext_list_from(q, 0),
        size_min: match first(t1, Directive::SizeMin) {
            Some(p) => size_value(t1, p),
            None => 0,
        },
        size_max: match first(t2, Directive::SizeMax) {
            Some(p) => size_value(t2, p),
            None => 0,
        },
        date_after: match first(t3, Directive::Date) {
            Some(p) => date_value(lower_of(capture(t3, p, Directive::Date)), now),
            None => None,
        },
        path: if first(t4, Directive::PathQuoted) is Some {
            first_capture(t4, Directive::PathQuoted)
        } else {
            first_capture(t4, Directive::PathPlain)
        },
        name_pattern: first_capture(after_path(q), Directive::Name),
    }
}

/// A filter set that asks for nothing.
pub open spec fn no_filters(f: FiltersView) -> bool {
    f.ext.len() == 0 && f.size_min == 0 && f.size_max == 0 && f.date_after is None && f.path.len()
        == 0 && f.name_pattern.len() == 0
}

fn first_capture_exec(t: &Vec<char>, d: Directive) -> (r: String)
    ensures
        r@ == first_capture(t@, d),
{
    proof {
        lemma_first_from(t@, 0, d);
    }
    match first_exec(t, d) {
        Some(p) => capture_exec(t, p, d),
        None => {
            let e: Vec<char> = Vec::new();
            assert(e@ =~= Seq::<char>::empty());
            string_of(e.as_slice())
        },
    }
}

/// Parses queries.
pub struct SearchSyntaxParser;

impl SearchSyntaxParser {
    /// Splits a query into its keyword and its filters. `now` is the current
    /// time in seconds since the epoch, which `dm:` values are relative to.
    pub fn parse(query: &str, now: u64) -> (r: (String, SearchFilters))
        ensures
            r.0@ == keyword_of(query@),
            r.1@ == filters_of(query@, now),
    {
        let t0 = chars_of(query);
        let (t1, ext) = extract_ext_exec(&t0);
        proof {
            lemma_first_from(t1@, 0, Directive::SizeMin);
        }
        let size_min = match first_exec(&t1, Directive::SizeMin) {
            Some(p) => size_value_exec(&t1, p),
            None => 0,
        };
        let t2 = strip_exec(&t1, Directive::SizeMin);
        proof {
            lemma_first_from(t2@, 0, Directive::SizeMax);
        }
        let size_max = match first_exec(&t2, Directive::SizeMax) {
            Some(p) => size_value_exec(&t2, p),
            None => 0,
        };
        let t3 = strip_exec(&t2, Directive::SizeMax);
        proof {
            lemma_first_from(t3@, 0, Directive::Date);
        }
        let date_after = match first_exec(&t3, Directive::Date) {
            Some(p) => {
                let cap = capture_exec(&t3, p, Directive::Date);
                let low = lowercase(cap.as_str());
                let ds = chars_of(low.as_str());
                date_after_of(&ds, now)
            },
            None => None,
        };
        let t4 = strip_exec(&t3, Directive::Date);
        let quoted = first_exec(&t4, Directive::PathQuoted);
        let (path, t5) = match quoted {
            Some(_) => (
                first_capture_exec(&t4, Directive::PathQuoted),
                strip_exec(&t4, Directive::PathQuoted),
            ),
            None => (
                first_capture_exec(&t4, Directive::PathPlain),
                strip_exec(&t4, Directive::PathPlain),
            ),
        };
        let name_pattern = first_capture_exec(&t5, Directive::Name);
        let t6 = strip_exec(&t5, Directive::Name);
        let t7 = decolon_exec(&t6);
        let kw = squash_exec(&t7);
        let keyword = string_of(kw.as_slice());
        let filters = SearchFilters { ext, size_min, size_max, date_after, path, name_pattern };
        (keyword, filters)
    }
}


/// A search result passes the filters: its extension is listed (when a list
/// is given), its size lies strictly beyond the given bounds, it changed no
/// earlier than the date bound, and its path and name contain the given
/// texts, all compared case-folded.
pub open spec fn passes(r: ResultView, f: FiltersView) -> bool {
    &&& (f.ext.len() > 0 ==> f.ext.contains(lower_of(extension_of(r.filename))))
    &&& (f.size_min > 0 ==> r.size > f.size_min)
    &&& (f.size_max > 0 ==> r.size < f.size_max)
    &&& (match f.date_after {
        Some(d) => r.mtime >= d,
        None => true,
    })
    &&& (f.path.len() > 0 ==> seq_contains(
        encode_utf8(lower_of(r.fullpath)),
        encode_utf8(lower_of(f.path)),
    ))
    &&& (f.name_pattern.len() > 0 ==> seq_contains(
        encode_utf8(lower_of(r.filename)),
        encode_utf8(lower_of(f.name_pattern)),
    ))
}

pub open spec fn passes_pred(f: FiltersView) -> spec_fn(ResultView) -> bool {
    |r: ResultView| passes(r, f)
}

/// Whether some entry of `list` holds exactly the characters of `s`.
fn list_holds(list: &Vec<String>, s: &str) -> (r: bool)
    ensures
        r == string_views(list@).contains(s@),
{
    let mut i: usize = 0;
    while i < list.len()
        invariant
            i <= list@.len(),
            forall|k: int| 0 <= k < i ==> (#[trigger] list@[k])@ != s@,
        decreases list@.len() - i,
    {
        if str_equal(list[i].as_str(), s) {
            assert(string_views(list@)[i as int] == s@);
            return true;
        }
        i = i + 1;
    }
    proof {
        if string_views(list@).contains(s@) {
            let k = choose|k: int| 0 <= k < string_views(list@).len() && string_views(list@)[k] == s@;
            assert(list@[k]@ == s@);
        }
    }
    false
}

/// Whether `hay`, case-folded, contains `needle`, case-folded.
fn folded_contains(hay: &str, needle: &str) -> (r: bool)
    ensures
        r == seq_contains(encode_utf8(lower_of(hay@)), encode_utf8(lower_of(needle@))),
{
    let h = lowercase(hay);
    let n = lowercase(needle);
    bytes_contain(h.as_str().as_bytes(), n.as_str().as_bytes())
}

impl SearchSyntaxParser {
    /// Whether one result passes the filters.
    pub fn match_item(item: &SearchResult, filters: &SearchFilters) -> (r: bool)
        ensures
            r == passes(item@, filters@),
    {
        if filters.ext.len() > 0 {
            let e = extension(item.filename.as_str());
            let el = lowercase(e.as_str());
            if !list_holds(&filters.ext, el.as_str()) {
                return false;
            }
        }
        if filters.size_min > 0 && item.size <= filters.size_min {
            return false;
        }
        if filters.size_max > 0 && item.size >= filters.size_max {
            return false;
        }
        match filters.date_after {
            Some(d) => {
                if item.mtime < d {
                    return false;
                }
            },
            None => {},
        }
        if !filters.path.as_str().is_empty() {
            if !folded_contains(item.fullpath.as_str(), filters.path.as_str()) {
                return false;
            }
        }
        if !filters.name_pattern.as_str().is_empty() {
            if !folded_contains(item.filename.as_str(), filters.name_pattern.as_str()) {
                return false;
            }
        }
        true
    }

    /// The results that pass the filters, in order.
    pub fn apply_filters(results: Vec<SearchResult>, filters: &SearchFilters) -> (r: Vec<
        SearchResult,
    >)
        ensures
            result_views(r@) == result_views(results@).filter(passes_pred(filters@)),
    {
        let ghost p = passes_pred(filters@);
        let ghost s = result_views(results@);
        let mut out: Vec<SearchResult> = Vec::new();
        let mut i: usize = 0;
        assert(s.subrange(0, 0).filter(p) =~= Seq::<ResultView>::empty()) by {
            reveal(Seq::filter);
        }
        while i < results.len()
            invariant
                i <= results@.len(),
                s == result_views(results@),
                p == passes_pred(filters@),
                result_views(out@) == s.subrange(0, i as int).filter(p),
            decreases results@.len() - i,
        {
            let it = &results[i];
            assert(s[i as int] == it@);
            if Self::match_item(it, filters) {
                out.push(it.duplicate());
            }
            proof {
                reveal(Seq::filter);
                let t = s.subrange(0, i + 1);
                assert(t.drop_last() =~= s.subrange(0, i as int));
                assert(t.last() == s[i as int]);
            }
            assert(result_views(out@) =~= s.subrange(0, i + 1).filter(p));
            i = i + 1;
        }
        assert(s.subrange(0, results@.len() as int) =~= s);
        out
    }
}


/// Every directive lead holds a colon.
proof fn lemma_lead_colon(d: Directive)
    ensures
        exists|k: int| 0 <= k < lead(d).len() && #[trigger] lead(d)[k] == ':',
{
    match d {
        Directive::Ext => assert(lead(d)[3] == ':'),
        Directive::SizeMin => assert(lead(d)[4] == ':'),
        Directive::SizeMax => assert(lead(d)[4] == ':'),
        Directive::Date => assert(lead(d)[2] == ':'),
        Directive::PathQuoted => assert(lead(d)[4] == ':'),
        Directive::PathPlain => assert(lead(d)[4] == ':'),
        Directive::Name => assert(lead(d)[4] == ':'),
    }
}

pub open spec fn colon_free(t: Seq<char>) -> bool {
    forall|i: int| 0 <= i < t.len() ==> #[trigger] t[i] != ':'
}

proof fn lemma_no_match(t: Seq<char>, i: int, d: Directive)
    requires
        colon_free(t),
    ensures
        match_len(t, i, d) == 0,
{
    lemma_lead_colon(d);
    if ci_lit(t, i, lead(d)) {
        let k = choose|k: int| 0 <= k < lead(d).len() && #[trigger] lead(d)[k] == ':';
        assert(ci_char(t[i + k], lead(d)[k]));
    }
}

proof fn lemma_plain_strip(t: Seq<char>, i: int, d: Directive)
    requires
        colon_free(t),
        0 <= i <= t.len(),
    ensures
        strip_from(t, i, d) == t.subrange(i, t.len() as int),
        first_from(t, i, d) is None,
        d == Directive::Ext ==> ext_list_from(t, i) == Seq::<Seq<char>>::empty(),
    decreases t.len() - i,
{
    if i < t.len() {
        lemma_no_match(t, i, d);
        lemma_plain_strip(t, i + 1, d);
        assert(seq![t[i]] + t.subrange(i + 1, t.len() as int) =~= t.subrange(i, t.len() as int));
    } else {
        assert(t.subrange(i, t.len() as int) =~= Seq::<char>::empty());
    }
}

/// A query without a colon holds no directive: parsing it gives no filters.
/// In particular, when the keyword that a query leaves has no colon, parsing
/// that keyword again gives no filters.
pub proof fn law_reparse_plain(q: Seq<char>, now: u64)
    requires
        colon_free(q),
    ensures
        no_filters(filters_of(q, now)),
{
    assert(q.subrange(0, q.len() as int) =~= q);
    lemma_plain_strip(q, 0, Directive::Ext);
    let t1 = strip(q, Directive::Ext);
    lemma_plain_strip(t1, 0, Directive::SizeMin);
    let t2 = strip(t1, Directive::SizeMin);
    lemma_plain_strip(t2, 0, Directive::SizeMax);
    let t3 = strip(t2, Directive::SizeMax);
    lemma_plain_strip(t3, 0, Directive::Date);
    let t4 = strip(t3, Directive::Date);
    lemma_plain_strip(t4, 0, Directive::PathQuoted);
    lemma_plain_strip(t4, 0, Directive::PathPlain);
    let t5 = strip(t4, Directive::PathPlain);
    lemma_plain_strip(t5, 0, Directive::Name);
}


proof fn lemma_squash_colon_free(t: Seq<char>, i: int, started: bool, gap: bool)
    requires
        colon_free(t),
    ensures
        colon_free(squash_from(t, i, started, gap)),
    decreases t.len() - i,
{
    if 0 <= i < t.len() {
        lemma_squash_colon_free(t, i + 1, true, false);
        lemma_squash_colon_free(t, i + 1, started, started);
        let rest = squash_from(t, i + 1, true, false);
        let head: Seq<char> = if gap {
            seq![' ']
        } else {
            Seq::empty()
        };
        assert(colon_free(head + seq![t[i]] + rest)) by {
            assert forall|k: int| 0 <= k < (head + seq![t[i]] + rest).len() implies #[trigger] (head
                + seq![t[i]] + rest)[k] != ':' by {
                if k >= head.len() + 1 {
                    assert((head + seq![t[i]] + rest)[k] == rest[k - head.len() - 1]);
                }
            }
        }
    }
}

/// The keyword that parsing leaves holds no directive: parsing it again
/// gives no filters.
pub proof fn law_reparse_keyword(q: Seq<char>, now: u64)
    ensures
        no_filters(filters_of(keyword_of(q), now)),
{
    let t = strip(after_path(q), Directive::Name);
    let d = decolon(t);
    assert(colon_free(d));
    lemma_squash_colon_free(d, 0, false, false);
    law_reparse_plain(keyword_of(q), now);
}

/// Every white space of `s` is a single space followed by a word, and `s`
/// does not end in white space.
pub open spec fn tail_clean(s: Seq<char>) -> bool {
    &&& forall|k: int|
        0 <= k < s.len() && is_ws(#[trigger] s[k]) ==> s[k] == ' ' && k + 1 < s.len() && !is_ws(
            s[k + 1],
        )
    &&& s.len() > 0 ==> !is_ws(s.last())
}

proof fn lemma_squash_shape(t: Seq<char>, i: int, started: bool, gap: bool)
    requires
        gap ==> started,
    ensures
        tail_clean(squash_from(t, i, started, gap)),
        !started && squash_from(t, i, started, gap).len() > 0 ==> !is_ws(
            squash_from(t, i, started, gap)[0],
        ),
    decreases t.len() - i,
{
    if 0 <= i < t.len() {
        if is_ws(t[i]) {
            lemma_squash_shape(t, i + 1, started, started);
        } else {
            lemma_squash_shape(t, i + 1, true, false);
            let r = squash_from(t, i + 1, true, false);
            let head: Seq<char> = if gap {
                seq![' ']
            } else {
                Seq::empty()
            };
            let o = head + seq![t[i]] + r;
            assert(o == squash_from(t, i, started, gap));
            assert forall|k: int| 0 <= k < o.len() && is_ws(#[trigger] o[k]) implies o[k] == ' '
                && k + 1 < o.len() && !is_ws(o[k + 1]) by {
                if k >= head.len() + 1 {
                    assert(o[k] == r[k - head.len() - 1]);
                    assert(o[k + 1] == r[k + 1 - head.len() - 1]);
                }
            }
            if r.len() > 0 {
                assert(o.last() == r.last());
            }
        }
    }
}

proof fn lemma_squash_clean(s: Seq<char>, i: int)
    requires
        tail_clean(s),
        s.len() > 0 ==> !is_ws(s[0]),
        0 <= i <= s.len(),
        i > 0 ==> !is_ws(s[i - 1]),
    ensures
        squash_from(s, i, i > 0, false) == s.subrange(i, s.len() as int),
    decreases s.len() - i,
{
    if i == s.len() {
        assert(s.subrange(i, s.len() as int) =~= Seq::<char>::empty());
    } else if !is_ws(s[i]) {
        lemma_squash_clean(s, i + 1);
        assert(seq![s[i]] + s.subrange(i + 1, s.len() as int) =~= s.subrange(i, s.len() as int));
        assert(Seq::<char>::empty() + seq![s[i]] + s.subrange(i + 1, s.len() as int) =~= s.subrange(
            i,
            s.len() as int,
        ));
    } else {
        assert(s[i] == ' ' && i + 1 < s.len() && !is_ws(s[i + 1]));
        assert(i > 0);
        lemma_squash_clean(s, i + 2);
        assert(squash_from(s, i + 1, true, true) == seq![' '] + seq![s[i + 1]] + squash_from(
            s,
            i + 2,
            true,
            false,
        ));
        assert(squash_from(s, i, true, false) == squash_from(s, i + 1, true, true));
        assert(seq![' '] + seq![s[i + 1]] + s.subrange(i + 2, s.len() as int) =~= s.subrange(
            i,
            s.len() as int,
        ));
    }
}

/// Squashing the white space of a squashed text changes nothing.
proof fn lemma_squash_idem(x: Seq<char>)
    ensures
        squash(squash(x)) == squash(x),
{
    let s = squash(x);
    lemma_squash_shape(x, 0, false, false);
    lemma_squash_clean(s, 0);
    assert(s.subrange(0, s.len() as int) =~= s);
}

/// Parsing the keyword that a query leaves gives that keyword back.
pub proof fn law_keyword_stable(q: Seq<char>)
    ensures
        keyword_of(keyword_of(q)) == keyword_of(q),
{
    let k = keyword_of(q);
    let d = decolon(strip(after_path(q), Directive::Name));
    assert(colon_free(d));
    lemma_squash_colon_free(d, 0, false, false);
    assert(colon_free(k));
    assert(k.subrange(0, k.len() as int) =~= k);
    lemma_plain_strip(k, 0, Directive::Ext);
    lemma_plain_strip(k, 0, Directive::SizeMin);
    lemma_plain_strip(k, 0, Directive::SizeMax);
    lemma_plain_strip(k, 0, Directive::Date);
    lemma_plain_strip(k, 0, Directive::PathQuoted);
    lemma_plain_strip(k, 0, Directive::PathPlain);
    lemma_plain_strip(k, 0, Directive::Name);
    assert(after_path(k) == k);
    assert(decolon(k) =~= k);
    lemma_squash_idem(decolon(strip(after_path(q), Directive::Name)));
}

/// A lower size bound alone admits exactly the results strictly larger than it.
pub proof fn law_size_min_strict(r: ResultView, f: FiltersView)
    requires
        f.ext.len() == 0,
        f.size_min > 0,
        f.size_max == 0,
        f.date_after is None,
        f.path.len() == 0,
        f.name_pattern.len() == 0,
    ensures
        passes(r, f) <==> r.size > f.size_min,
{
}

} // verus!
