//! The CSV text of a result list: a byte-order mark and a header, then one
//! line per row with the text fields quoted.

use vstd::prelude::*;
use crate::commands::{result_views, ResultView, SearchResult};
use crate::text::{chars_of, string_of};

verus! {

/// The decimal digits of `n`.
pub open spec fn dec_chars(n: nat) -> Seq<char>
    decreases n,
{
    let d = seq!['0', '1', '2', '3', '4', '5', '6', '7', '8', '9'][(n % 10) as int];
    if n < 10 {
        seq![d]
    } else {
        dec_chars(n / 10).push(d)
    }
}

fn push_dec(out: &mut Vec<char>, n: u64)
    ensures
        final(out)@ == old(out)@ + dec_chars(n as nat),
    decreases n,
{
    if n >= 10 {
        push_dec(out, n / 10);
    }
    let digits = vec!['0', '1', '2', '3', '4', '5', '6', '7', '8', '9'];
    assert(digits@ =~= seq!['0', '1', '2', '3', '4', '5', '6', '7', '8', '9']);
    out.push(digits[(n % 10) as usize]);
    assert(final(out)@ =~= old(out)@ + dec_chars(n as nat));
}

/// `s` with every double quote doubled.
pub open spec fn quoted(s: Seq<char>) -> Seq<char>
    decreases s.len(),
{
    if s.len() == 0 {
        Seq::empty()
    } else if s.last() == '"' {
        quoted(s.drop_last()) + seq!['"', '"']
    } else {
        quoted(s.drop_last()).push(s.last())
    }
}

fn push_quoted(out: &mut Vec<char>, s: &str)
    ensures
        final(out)@ == old(out)@ + quoted(s@),
{
    let cs = chars_of(s);
    let mut i: usize = 0;
    assert(quoted(cs@.subrange(0, 0)) =~= Seq::<char>::empty());
    while i < cs.len()
        invariant
            i <= cs@.len(),
            cs@ == s@,
            out@ == old(out)@ + quoted(cs@.subrange(0, i as int)),
        decreases cs@.len() - i,
    {
        let c = cs[i];
        let ghost prev = out@;
        if c == '"' {
            out.push('"');
            out.push('"');
        } else {
            out.push(c);
        }
        proof {
            let t = cs@.subrange(0, i + 1);
            assert(t.drop_last() =~= cs@.subrange(0, i as int));
            assert(t.last() == c);
        }
        assert(out@ =~= old(out)@ + quoted(cs@.subrange(0, i + 1)));
        i = i + 1;
    }
    assert(cs@.subrange(0, cs@.len() as int) =~= cs@);
}

/// One CSV line: quoted name, size, mtime, quoted path.
pub open spec fn csv_line(r: ResultView) -> Seq<char> {
    seq!['"'] + quoted(r.filename) + seq!['"', ','] + dec_chars(r.size as nat) + seq![','] + dec_chars(
        r.mtime as nat,
    ) + seq![',', '"'] + quoted(r.fullpath) + seq!['"', '\n']
}

/// The header line.
pub open spec fn csv_header() -> Seq<char> {
    seq![
        '\u{FEFF}', 'F', 'i', 'l', 'e', 'n', 'a', 'm', 'e', ',', 'S', 'i', 'z', 'e', ',', 'M', 'o',
        'd', 'i', 'f', 'i', 'e', 'd', ' ', 'T', 'i', 'm', 'e', ',', 'F', 'u', 'l', 'l', ' ', 'P',
        'a', 't', 'h', '\n',
    ]
}

pub open spec fn csv_lines(rows: Seq<ResultView>) -> Seq<char>
    decreases rows.len(),
{
    if rows.len() == 0 {
        Seq::empty()
    } else {
        csv_lines(rows.drop_last()) + csv_line(rows.last())
    }
}

/// The CSV text of the rows, byte-order mark and header first.
pub fn csv_text(rows: &Vec<SearchResult>) -> (r: String)
    ensures
        r@ == csv_header() + csv_lines(result_views(rows@)),
{
    let mut out: Vec<char> = vec![
        '\u{FEFF}', 'F', 'i', 'l', 'e', 'n', 'a', 'm', 'e', ',', 'S', 'i', 'z', 'e', ',', 'M', 'o',
        'd', 'i', 'f', 'i', 'e', 'd', ' ', 'T', 'i', 'm', 'e', ',', 'F', 'u', 'l', 'l', ' ', 'P',
        'a', 't', 'h', '\n',
    ];
    assert(out@ =~= csv_header());
    let ghost s = result_views(rows@);
    let mut i: usize = 0;
    assert(s.subrange(0, 0) =~= Seq::<ResultView>::empty());
    while i < rows.len()
        invariant
            i <= rows@.len(),
            s == result_views(rows@),
            out@ == csv_header() + csv_lines(s.subrange(0, i as int)),
        decreases rows@.len() - i,
    {
        let r = &rows[i];
        assert(s[i as int] == r@);
        let ghost prev = out@;
        out.push('"');
        push_quoted(&mut out, r.filename.as_str());
        out.push('"');
        out.push(',');
        push_dec(&mut out, r.size);
        out.push(',');
        push_dec(&mut out, r.mtime);
        out.push(',');
        out.push('"');
        push_quoted(&mut out, r.fullpath.as_str());
        out.push('"');
        out.push('\n');
        proof {
            let t = s.subrange(0, i + 1);
            assert(t.drop_last() =~= s.subrange(0, i as int));
            assert(t.last() == r@);
            assert(out@ =~= prev + csv_line(r@));
        }
        i = i + 1;
    }
    assert(s.subrange(0, rows@.len() as int) =~= s);
    string_of(out.as_slice())
}

} // verus!
