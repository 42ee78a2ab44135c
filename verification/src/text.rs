//! The text layer of the input files: lines, comma-separated fields and
//! decimal numbers, with the meaning that the line reader, `str::split`
//! and `usize::from_str` give them.
use vstd::prelude::*;

verus! {

/// The pieces of `s` between the bytes `sep`, as `str::split` yields them
/// (an empty input is one empty piece).
pub open spec fn split_on(s: Seq<u8>, sep: u8) -> Seq<Seq<u8>>
    decreases s.len(),
{
    if s.len() == 0 {
        seq![Seq::empty()]
    } else {
        let p = split_on(s.drop_last(), sep);
        if s.last() == sep {
            p.push(Seq::empty())
        } else {
            p.update(p.len() - 1, p.last().push(s.last()))
        }
    }
}

/// Splitting always yields at least one piece.
pub proof fn lemma_split_nonempty(s: Seq<u8>, sep: u8)
    ensures
        split_on(s, sep).len() >= 1,
    decreases s.len(),
{
    if s.len() > 0 {
        lemma_split_nonempty(s.drop_last(), sep);
    }
}

/// `l` without one trailing carriage return.
pub open spec fn strip_cr(l: Seq<u8>) -> Seq<u8> {
    if l.len() > 0 && l.last() == 13 { l.drop_last() } else { l }
}

/// The lines of `text` as a buffered line reader yields them: split at
/// line feeds, a carriage return before a line feed dropped, and no empty
/// line after a final line feed.
pub open spec fn text_lines(text: Seq<u8>) -> Seq<Seq<u8>> {
    let p = split_on(text, 10);
    let terminated = p.drop_last().map_values(|l: Seq<u8>| strip_cr(l));
    if p.last().len() == 0 { terminated } else { terminated.push(p.last()) }
}

/// A line that holds a record: not empty and not a `#` comment.
pub open spec fn is_data_line(l: Seq<u8>) -> bool {
    l.len() > 0 && l[0] != 35
}

/// The record lines of `text`, in order.
pub open spec fn data_lines(text: Seq<u8>) -> Seq<Seq<u8>> {
    text_lines(text).filter(|l: Seq<u8>| is_data_line(l))
}

/// The comma-separated fields of a line.
pub open spec fn fields(l: Seq<u8>) -> Seq<Seq<u8>> {
    split_on(l, 44)
}

/// All bytes of `s` are decimal digits.
pub open spec fn all_digits(s: Seq<u8>) -> bool {
    forall|i: int| 0 <= i < s.len() ==> 48 <= #[trigger] s[i] <= 57
}

/// The value of the decimal digits `s`.
pub open spec fn digits_value(s: Seq<u8>) -> nat
    decreases s.len(),
{
    if s.len() == 0 {
        0
    } else {
        10 * digits_value(s.drop_last()) + (s.last() - 48) as nat
    }
}

/// The number that `usize::from_str` reads from `s`: an optional `+`, then
/// one or more decimal digits whose value fits a `usize`.
pub open spec fn parse_usize_spec(s: Seq<u8>) -> Option<usize> {
    let d = if s.len() > 0 && s[0] == 43 { s.drop_first() } else { s };
    if d.len() > 0 && all_digits(d) && digits_value(d) <= usize::MAX {
        Some(digits_value(d) as usize)
    } else {
        None
    }
}

/// Field `i` of `fs` read as a number, or `dflt` when the line has no
/// field `i` (`None` when the field is there but is not a number).
pub open spec fn field_or(fs: Seq<Seq<u8>>, i: int, dflt: usize) -> Option<usize> {
    if i < fs.len() { parse_usize_spec(fs[i]) } else { Some(dflt) }
}

/// Field `i` of `fs` read as a number; `None` when it is missing or is not
/// a number.
pub open spec fn field_req(fs: Seq<Seq<u8>>, i: int) -> Option<usize> {
    if i < fs.len() { parse_usize_spec(fs[i]) } else { None }
}

/// The views of a vector of byte vectors.
pub open spec fn views(v: Seq<Vec<u8>>) -> Seq<Seq<u8>> {
    v.map_values(|x: Vec<u8>| x@)
}

/// Splits `s` at every byte `sep`.
pub fn split_bytes(s: &[u8], sep: u8) -> (r: Vec<Vec<u8>>)
    ensures
        views(r@) == split_on(s@, sep),
{
    let mut done: Vec<Vec<u8>> = Vec::new();
    let mut cur: Vec<u8> = Vec::new();
    let mut i: usize = 0;
    while i < s.len()
        invariant
            i <= s@.len(),
            split_on(s@.take(i as int), sep) == views(done@).push(cur@),
        decreases s@.len() - i,
    {
        proof {
            assert(s@.take(i + 1).drop_last() =~= s@.take(i as int));
        }
        let b = s[i];
        if b == sep {
            let ghost before = views(done@);
            let finished = cur;
            cur = Vec::new();
            done.push(finished);
            assert(views(done@) =~= before.push(finished@));
            assert(split_on(s@.take(i + 1), sep) =~= views(done@).push(cur@));
        } else {
            let ghost old_cur = cur@;
            cur.push(b);
            assert(split_on(s@.take(i + 1), sep) =~= views(done@).push(cur@));
        }
        i = i + 1;
    }
    let ghost before = views(done@);
    done.push(cur);
    assert(s@.take(s@.len() as int) =~= s@);
    assert(views(done@) =~= before.push(views(done@).last()));
    done
}

/// The lines of `text`, as a buffered line reader yields them.
pub fn split_lines(text: &[u8]) -> (r: Vec<Vec<u8>>)
    ensures
        views(r@) == text_lines(text@),
{
    let pieces = split_bytes(text, 10);
    proof {
        lemma_split_nonempty(text@, 10);
    }
    let n = pieces.len();
    let mut r: Vec<Vec<u8>> = Vec::new();
    let ghost p = split_on(text@, 10);
    let mut i: usize = 0;
    while i + 1 < n
        invariant
            n == pieces@.len(),
            n >= 1,
            views(pieces@) == p,
            i + 1 <= n,
            views(r@) == p.take(i as int).map_values(|l: Seq<u8>| strip_cr(l)),
        decreases n - i,
    {
        let mut l = pieces[i].clone();
        let len = l.len();
        if len > 0 && l[len - 1] == 13 {
            l.pop();
        }
        let ghost before = views(r@);
        assert(pieces@[i as int]@ == p[i as int]);
        r.push(l);
        assert(views(r@) =~= before.push(strip_cr(p[i as int])));
        assert(p.take(i + 1).map_values(|l: Seq<u8>| strip_cr(l)) =~= p.take(i as int).map_values(|l: Seq<u8>| strip_cr(l)).push(strip_cr(p[i as int])));
        i = i + 1;
    }
    assert(p.take(i as int) =~= p.drop_last());
    let last = pieces[n - 1].clone();
    assert(last@ == p.last());
    if last.len() > 0 {
        let ghost before = views(r@);
        r.push(last);
        assert(views(r@) =~= before.push(p.last()));
    }
    r
}

/// Reads a number as `usize::from_str` does; `None` when `s` is not an
/// optional `+` and one or more digits, or the value does not fit.
pub fn parse_usize(s: &[u8]) -> (r: Option<usize>)
    ensures
        r == parse_usize_spec(s@),
{
    let mut start: usize = 0;
    if s.len() > 0 && s[0] == 43 {
        start = 1;
    }
    let ghost d = if s@.len() > 0 && s@[0] == 43 { s@.drop_first() } else { s@ };
    assert(d =~= s@.skip(start as int));
    if start >= s.len() {
        return None;
    }
    let mut v: usize = 0;
    let mut i: usize = start;
    while i < s.len()
        invariant
            start <= i <= s@.len(),
            d == s@.skip(start as int),
            d == (if s@.len() > 0 && s@[0] == 43 { s@.drop_first() } else { s@ }),
            d.len() > 0,
            all_digits(s@.subrange(start as int, i as int)),
            v == digits_value(s@.subrange(start as int, i as int)),
        decreases s@.len() - i,
    {
        let b = s[i];
        assert(s@.subrange(start as int, i + 1).drop_last() =~= s@.subrange(start as int, i as int));
        if b < 48 || b > 57 {
            proof {
                assert(d[i - start] == b);
                assert(!(48 <= d[i - start] <= 57));
                assert(!all_digits(d));
            }
            return None;
        }
        let digit = (b - 48) as usize;
        if v > (usize::MAX - digit) / 10 {
            proof {
                assert(d.take(i - start + 1) =~= s@.subrange(start as int, i + 1));
                assert(s@.subrange(start as int, i + 1).last() == b);
                assert(digits_value(s@.subrange(start as int, i + 1)) == 10 * v + digit);
                assert(all_digits(s@.subrange(start as int, i + 1)));
                lemma_digits_value_prefix(d, (i - start + 1) as int);
                assert(10 * v + digit > usize::MAX) by (nonlinear_arith)
                    requires v > (usize::MAX - digit) / 10, digit <= 9;
            }
            return None;
        }
        v = v * 10 + digit;
        i = i + 1;
    }
    assert(s@.subrange(start as int, s@.len() as int) =~= d);
    Some(v)
}

/// A prefix of the digits never reads more than all of them.
pub proof fn lemma_digits_value_prefix(d: Seq<u8>, k: int)
    requires
        0 <= k <= d.len(),
        all_digits(d.take(k)),
    ensures
        all_digits(d) ==> digits_value(d.take(k)) <= digits_value(d),
    decreases d.len() - k,
{
    if k < d.len() && all_digits(d) {
        assert(all_digits(d.take(k + 1)));
        lemma_digits_value_prefix(d, k + 1);
        assert(d.take(k + 1).drop_last() =~= d.take(k));
    } else if k == d.len() {
        assert(d.take(k) =~= d);
    }
}

} // verus!
