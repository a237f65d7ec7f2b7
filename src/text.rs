use vstd::prelude::*;

use crate::types::is_operator_char;
use vstd::string::StrSliceExecFns;

verus! {

/// Relies on `String::push`, which appends one character to the string.
pub assume_specification[ String::push ](s: &mut String, ch: char)
    ensures
        final(s)@ == old(s)@.push(ch),
;

/// The input as the tokenizer reads it: each `**` becomes `^`, then the
/// spaces are dropped.
pub open spec fn clean(s: Seq<char>) -> Seq<char>
    decreases s.len(),
{
    if s.len() == 0 {
        s
    } else if s.len() >= 2 && s[0] == '*' && s[1] == '*' {
        seq!['^'] + clean(s.skip(2))
    } else if s[0] == ' ' {
        clean(s.skip(1))
    } else {
        seq![s[0]] + clean(s.skip(1))
    }
}

pub open spec fn is_separator(c: char) -> bool {
    is_operator_char(c) || c == ','
}

/// The pieces of `s` read so far, and the run of non-separators still open.
pub open spec fn scan(s: Seq<char>) -> (Seq<Seq<char>>, Seq<char>)
    decreases s.len(),
{
    if s.len() == 0 {
        (Seq::empty(), Seq::empty())
    } else {
        let (done, run) = scan(s.drop_last());
        let c = s.last();
        if is_separator(c) {
            (flush(done, run).push(seq![c]), Seq::empty())
        } else {
            (done, run.push(c))
        }
    }
}

pub open spec fn flush(done: Seq<Seq<char>>, run: Seq<char>) -> Seq<Seq<char>> {
    if run.len() > 0 {
        done.push(run)
    } else {
        done
    }
}

/// `s` cut before and after every operator character and comma: the runs
/// between them and each separator on its own, in order.
pub open spec fn segments(s: Seq<char>) -> Seq<Seq<char>> {
    flush(scan(s).0, scan(s).1)
}

/// The segments other than commas.
pub open spec fn without_commas(v: Seq<Seq<char>>) -> Seq<Seq<char>>
    decreases v.len(),
{
    if v.len() == 0 {
        v
    } else if v.last() == seq![','] {
        without_commas(v.drop_last())
    } else {
        without_commas(v.drop_last()).push(v.last())
    }
}

/// `s` cut before and after every operator character: the runs between
/// them and each operator on its own, in order; commas cut too, and vanish.
pub open spec fn pieces(s: Seq<char>) -> Seq<Seq<char>> {
    without_commas(segments(s))
}

pub open spec fn piece_views(v: Seq<&str>) -> Seq<Seq<char>> {
    Seq::new(v.len(), |i: int| v[i]@)
}

/// Rewrites `**` to `^` and drops spaces.
pub fn clean_input(s: &str) -> (r: String)
    ensures
        r@ == clean(s@),
{
    let n = s.unicode_len();
    let mut out = String::new();
    let mut i: usize = 0;
    assert(s@.skip(0) =~= s@);
    while i < n
        invariant
            n == s@.len(),
            i <= n,
            clean(s@) == out@ + clean(s@.skip(i as int)),
        decreases n - i,
    {
        let ghost rest = s@.skip(i as int);
        let c = s.get_char(i);
        assert(rest[0] == c);
        if c == '*' && i + 1 < n && s.get_char(i + 1) == '*' {
            assert(rest[1] == s@[i + 1]);
            assert(rest.skip(2) =~= s@.skip(i + 2));
            let ghost prev = out@;
            out.push('^');
            assert(out@ + clean(s@.skip(i + 2)) =~= prev + (seq!['^'] + clean(s@.skip(i + 2))));
            i = i + 2;
        } else {
            assert(rest.skip(1) =~= s@.skip(i + 1));
            if c != ' ' {
                let ghost prev = out@;
                out.push(c);
                assert(out@ + clean(s@.skip(i + 1)) =~= prev + (seq![c] + clean(s@.skip(i + 1))));
            }
            i = i + 1;
        }
    }
    assert(out@ + clean(s@.skip(n as int)) =~= out@);
    out
}

/// Splits `s` into its segments (see `segments`).
pub fn split_segments<'a>(s: &'a str) -> (r: Vec<&'a str>)
    ensures
        piece_views(r@) == segments(s@),
{
    let n = s.unicode_len();
    let mut result: Vec<&'a str> = Vec::new();
    let mut last: usize = 0;
    let mut i: usize = 0;
    assert(s@.take(0) =~= Seq::<char>::empty());
    assert(piece_views(result@) =~= Seq::<Seq<char>>::empty());
    while i < n
        invariant
            n == s@.len(),
            last <= i <= n,
            scan(s@.take(i as int)) == (piece_views(result@), s@.subrange(last as int, i as int)),
        decreases n - i,
    {
        let c = s.get_char(i);
        let ghost before = s@.take(i as int);
        assert(s@.take(i + 1).drop_last() =~= before);
        assert(s@.take(i + 1).last() == c);
        if separates(c) {
            if last != i {
                let piece = s.substring_char(last, i);
                let ghost prev = piece_views(result@);
                result.push(piece);
                assert(piece_views(result@) =~= prev.push(piece@));
            }
            let piece = s.substring_char(i, i + 1);
            let ghost mid = piece_views(result@);
            result.push(piece);
            assert(piece@ =~= seq![c]);
            assert(piece_views(result@) =~= mid.push(seq![c]));
            last = i + 1;
            assert(s@.subrange(last as int, i + 1) =~= Seq::<char>::empty());
        } else {
            assert(s@.subrange(last as int, i + 1) =~= s@.subrange(last as int, i as int).push(c));
        }
        i = i + 1;
    }
    assert(s@.take(n as int) =~= s@);
    if last < n {
        let piece = s.substring_char(last, n);
        let ghost prev = piece_views(result@);
        result.push(piece);
        assert(piece_views(result@) =~= prev.push(piece@));
    }
    result
}

/// Splits `s` into its pieces (see `pieces`).
pub fn split_keep<'a>(s: &'a str) -> (r: Vec<&'a str>)
    ensures
        piece_views(r@) == pieces(s@),
{
    let all = split_segments(s);
    let ghost v = piece_views(all@);
    let mut result: Vec<&'a str> = Vec::new();
    let mut i: usize = 0;
    assert(v.take(0) =~= Seq::<Seq<char>>::empty());
    assert(piece_views(result@) =~= Seq::<Seq<char>>::empty());
    while i < all.len()
        invariant
            v == piece_views(all@),
            i <= all@.len(),
            piece_views(result@) == without_commas(v.take(i as int)),
        decreases all.len() - i,
    {
        assert(v.take(i + 1).drop_last() =~= v.take(i as int));
        assert(v.take(i + 1).last() == all@[i as int]@);
        if !is_comma(all[i]) {
            let ghost prev = piece_views(result@);
            result.push(all[i]);
            assert(piece_views(result@) =~= prev.push(all@[i as int]@));
        }
        i = i + 1;
    }
    assert(v.take(all@.len() as int) =~= v);
    result
}

fn is_comma(s: &str) -> (r: bool)
    ensures
        r == (s@ == seq![',']),
{
    if s.unicode_len() == 1 && s.get_char(0) == ',' {
        assert(s@ =~= seq![',']);
        true
    } else {
        false
    }
}

fn separates(c: char) -> (r: bool)
    ensures
        r == is_separator(c),
{
    crate::types::Operator::is_operator(c) || c == ','
}

} // verus!
