//! Text normalisation and chunking.
use vstd::prelude::*;
use vstd::string::StrSliceExecFns;
use vstd::slice::{slice_subrange, slice_to_vec};

use crate::chars::{from_chars, to_chars};

verus! {

/// Whitespace as `char::is_whitespace` defines it: the Unicode `White_Space` property.
pub open spec fn is_white(c: char) -> bool {
    let u = c as u32;
    (0x09 <= u <= 0x0d) || u == 0x20 || u == 0x85 || u == 0xa0 || u == 0x1680 || (0x2000 <= u
        <= 0x200a) || u == 0x2028 || u == 0x2029 || u == 0x202f || u == 0x205f || u == 0x3000
}

pub fn is_white_char(c: char) -> (r: bool)
    ensures
        r == is_white(c),
{
    let u = c as u32;
    (0x09 <= u && u <= 0x0d) || u == 0x20 || u == 0x85 || u == 0xa0 || u == 0x1680 || (0x2000
        <= u && u <= 0x200a) || u == 0x2028 || u == 0x2029 || u == 0x202f || u == 0x205f || u
        == 0x3000
}

/// `s` without its leading whitespace.
pub open spec fn trim_start(s: Seq<char>) -> Seq<char>
    decreases s.len(),
{
    if s.len() > 0 && is_white(s[0]) {
        trim_start(s.drop_first())
    } else {
        s
    }
}

/// `s` without its trailing whitespace.
pub open spec fn trim_end(s: Seq<char>) -> Seq<char>
    decreases s.len(),
{
    if s.len() > 0 && is_white(s.last()) {
        trim_end(s.drop_last())
    } else {
        s
    }
}

/// `s` without leading and trailing whitespace, as `str::trim` gives it.
pub open spec fn trim(s: Seq<char>) -> Seq<char> {
    trim_end(trim_start(s))
}

/// Whether `sep` occurs in `s` at position `i`.
pub open spec fn occurs_at(s: Seq<char>, sep: Seq<char>, i: int) -> bool {
    0 <= i && i + sep.len() <= s.len() && s.subrange(i, i + sep.len()) == sep
}

/// The pieces of `s` between the occurrences of `sep`, found from left to right
/// without overlap, the first piece continuing `cur` (as `str::split` with a
/// non-empty pattern).
pub open spec fn split_acc(s: Seq<char>, sep: Seq<char>, cur: Seq<char>) -> Seq<Seq<char>>
    decreases s.len(),
{
    if s.len() == 0 {
        seq![cur]
    } else if sep.len() > 0 && occurs_at(s, sep, 0) {
        seq![cur] + split_acc(s.subrange(sep.len() as int, s.len() as int), sep, Seq::empty())
    } else {
        split_acc(s.drop_first(), sep, cur.push(s[0]))
    }
}

/// The pieces of `s` between the occurrences of `sep`.
pub open spec fn split_seq(s: Seq<char>, sep: Seq<char>) -> Seq<Seq<char>> {
    split_acc(s, sep, Seq::empty())
}

/// The views of a vector of character vectors.
pub open spec fn views(v: Seq<Vec<char>>) -> Seq<Seq<char>> {
    v.map_values(|x: Vec<char>| x@)
}

/// The characters of `v` from `lo` to `hi`.
pub fn sub_chars(v: &Vec<char>, lo: usize, hi: usize) -> (r: Vec<char>)
    requires
        lo <= hi <= v.len(),
    ensures
        r@ == v@.subrange(lo as int, hi as int),
{
    slice_to_vec(slice_subrange(v.as_slice(), lo, hi))
}

/// Appends the characters of `b` to `a`.
pub fn append_chars(a: &mut Vec<char>, b: &Vec<char>)
    ensures
        final(a)@ == old(a)@ + b@,
{
    let mut i: usize = 0;
    let ghost a0 = a@;
    while i < b.len()
        invariant
            i <= b.len(),
            a@ == a0 + b@.subrange(0, i as int),
        decreases b.len() - i,
    {
        a.push(b[i]);
        proof { assert(a0 + b@.subrange(0, i as int + 1) =~= (a0 + b@.subrange(0, i as int)).push(b@[i as int])); }
        i += 1;
    }
    proof { assert(b@.subrange(0, b.len() as int) =~= b@); }
}

/// Whether `sep` occurs in `s` at position `i`.
pub fn occurs_at_exec(s: &Vec<char>, sep: &Vec<char>, i: usize) -> (r: bool)
    ensures
        r == occurs_at(s@, sep@, i as int),
{
    if i > s.len() || sep.len() > s.len() - i {
        return false;
    }
    let mut j: usize = 0;
    while j < sep.len()
        invariant
            j <= sep.len(),
            i + sep.len() <= s.len(),
            forall|k: int| 0 <= k < j ==> s@[i + k] == sep@[k],
        decreases sep.len() - j,
    {
        if s[i + j] != sep[j] {
            proof { assert(s@.subrange(i as int, i + sep.len())[j as int] != sep@[j as int]); }
            return false;
        }
        j += 1;
    }
    proof { assert(s@.subrange(i as int, i + sep.len()) =~= sep@); }
    true
}

/// Splits `s` at each occurrence of the non-empty `sep`, as `str::split` does.
pub fn split_chars(s: &Vec<char>, sep: &Vec<char>) -> (r: Vec<Vec<char>>)
    requires
        sep.len() > 0,
    ensures
        views(r@) == split_seq(s@, sep@),
{
    let mut out: Vec<Vec<char>> = Vec::new();
    let mut cur: Vec<char> = Vec::new();
    let mut i: usize = 0;
    proof {
        assert(s@.subrange(0, s.len() as int) =~= s@);
        assert(views(out@) + split_seq(s@, sep@) =~= split_seq(s@, sep@));
    }
    while i < s.len()
        invariant
            i <= s.len(),
            sep.len() > 0,
            views(out@) + split_acc(s@.subrange(i as int, s.len() as int), sep@, cur@)
                == split_seq(s@, sep@),
        decreases s.len() - i,
    {
        let ghost rest = s@.subrange(i as int, s.len() as int);
        if occurs_at_exec(s, sep, i) {
            proof {
                assert(rest.subrange(0, sep.len() as int) =~= s@.subrange(i as int, i + sep.len()));
                assert(rest.subrange(sep.len() as int, rest.len() as int) =~= s@.subrange(i + sep.len(), s.len() as int));
                assert(views(out@.push(cur)) =~= views(out@).push(cur@));
            }
            out.push(cur);
            cur = Vec::new();
            i = i + sep.len();
        } else {
            proof {
                if occurs_at(rest, sep@, 0) {
                    assert(rest.subrange(0, sep.len() as int) =~= s@.subrange(i as int, i + sep.len()));
                }
                assert(rest.drop_first() =~= s@.subrange(i + 1, s.len() as int));
            }
            cur.push(s[i]);
            i = i + 1;
        }
    }
    proof {
        assert(views(out@.push(cur)) =~= views(out@).push(cur@));
        assert(views(out@) + seq![cur@] =~= views(out@).push(cur@));
    }
    out.push(cur);
    out
}

/// Removes leading and trailing whitespace, as `str::trim` does.
pub fn trim_chars(v: &Vec<char>) -> (r: Vec<char>)
    ensures
        r@ == trim(v@),
{
    let mut lo: usize = 0;
    proof { assert(v@.subrange(0, v.len() as int) =~= v@); }
    while lo < v.len() && is_white_char(v[lo])
        invariant
            lo <= v.len(),
            trim_start(v@) == trim_start(v@.subrange(lo as int, v.len() as int)),
        decreases v.len() - lo,
    {
        proof {
            assert(v@.subrange(lo as int, v.len() as int).drop_first() =~= v@.subrange(lo + 1, v.len() as int));
        }
        lo += 1;
    }
    let ghost t = v@.subrange(lo as int, v.len() as int);
    assert(trim_start(v@) == t);
    let mut hi: usize = v.len();
    proof { assert(t.subrange(0, (hi - lo) as int) =~= t); }
    while hi > lo && is_white_char(v[hi - 1])
        invariant
            lo <= hi <= v.len(),
            t == v@.subrange(lo as int, v.len() as int),
            trim_end(t) == trim_end(v@.subrange(lo as int, hi as int)),
        decreases hi,
    {
        proof {
            assert(v@.subrange(lo as int, hi as int).drop_last() =~= v@.subrange(lo as int, hi - 1));
        }
        hi -= 1;
    }
    sub_chars(v, lo, hi)
}

/// The trimmed, non-empty lines of `lines`, joined by single newlines.
pub open spec fn join_clean(lines: Seq<Seq<char>>) -> Seq<char>
    decreases lines.len(),
{
    if lines.len() == 0 {
        Seq::empty()
    } else {
        let prev = join_clean(lines.drop_last());
        let t = trim(lines.last());
        if t.len() == 0 {
            prev
        } else if prev.len() == 0 {
            t
        } else {
            prev + seq!['\n'] + t
        }
    }
}

/// Normalised text: each line trimmed, empty lines dropped, lines joined by `\n`.
pub open spec fn cleaned(s: Seq<char>) -> Seq<char> {
    join_clean(split_seq(s, seq!['\n']))
}

/// Normalises extracted text: trims each line and drops empty ones. As no empty
/// line is left, no run of blank lines remains either.
pub fn clean_text(text: &str) -> (r: String)
    ensures
        r@ == cleaned(text@),
{
    let cs = to_chars(text);
    let mut nl: Vec<char> = Vec::new();
    nl.push('\n');
    proof { assert(nl@ =~= seq!['\n']); }
    let lines = split_chars(&cs, &nl);
    let mut out: Vec<char> = Vec::new();
    let mut i: usize = 0;
    while i < lines.len()
        invariant
            i <= lines.len(),
            views(lines@) == split_seq(text@, seq!['\n']),
            out@ == join_clean(views(lines@).take(i as int)),
        decreases lines.len() - i,
    {
        let t = trim_chars(&lines[i]);
        proof {
            assert(views(lines@).take(i as int + 1).drop_last() =~= views(lines@).take(i as int));
            assert(views(lines@).take(i as int + 1).last() == lines@[i as int]@);
        }
        if t.len() > 0 {
            if out.len() > 0 {
                out.push('\n');
            }
            append_chars(&mut out, &t);
        }
        proof {
            assert(out@ =~= join_clean(views(lines@).take(i as int + 1)));
        }
        i += 1;
    }
    proof { assert(views(lines@).take(lines.len() as int) =~= views(lines@)); }
    from_chars(&out)
}

/// A rough token estimate: one token for every three characters.
pub fn estimate_tokens(text: &str) -> (r: i32)
    ensures
        r == (text@.len() / 3) as i32,
{
    let n = text.unicode_len();
    (n / 3) as i32
}

/// The first position at or after `i` where `pat` occurs in `s`.
pub open spec fn find_from(s: Seq<char>, pat: Seq<char>, i: int) -> Option<int>
    decreases (if i < s.len() {
        s.len() - i
    } else {
        0
    }),
{
    if i < 0 || i + pat.len() > s.len() {
        None
    } else if occurs_at(s, pat, i) {
        Some(i)
    } else if i < s.len() {
        find_from(s, pat, i + 1)
    } else {
        None
    }
}

/// The first position where `pat` occurs in `s`, as `str::find` gives it.
pub open spec fn find(s: Seq<char>, pat: Seq<char>) -> Option<int> {
    find_from(s, pat, 0)
}

/// The first position where `pat` occurs in `s`.
pub fn find_chars(s: &Vec<char>, pat: &Vec<char>) -> (r: Option<usize>)
    ensures
        r matches Some(i) ==> find(s@, pat@) == Some(i as int) && occurs_at(s@, pat@, i as int),
        r is None ==> find(s@, pat@) is None,
{
    let mut i: usize = 0;
    while i < s.len() && pat.len() <= s.len() - i
        invariant
            i <= s.len(),
            find(s@, pat@) == find_from(s@, pat@, i as int),
        decreases s.len() - i,
    {
        if occurs_at_exec(s, pat, i) {
            return Some(i);
        }
        i += 1;
    }
    if pat.len() <= s.len() - i && occurs_at_exec(s, pat, i) {
        return Some(i);
    }
    None
}

/// `pieces` joined by `sep`.
pub open spec fn join_with(pieces: Seq<Seq<char>>, sep: Seq<char>) -> Seq<char>
    decreases pieces.len(),
{
    if pieces.len() == 0 {
        Seq::empty()
    } else if pieces.len() == 1 {
        pieces[0]
    } else {
        join_with(pieces.drop_last(), sep) + sep + pieces.last()
    }
}

/// Joins `pieces` with `sep` between them.
pub fn join_chars(pieces: &Vec<Vec<char>>, sep: &Vec<char>) -> (r: Vec<char>)
    ensures
        r@ == join_with(views(pieces@), sep@),
{
    let mut out: Vec<char> = Vec::new();
    let mut i: usize = 0;
    while i < pieces.len()
        invariant
            i <= pieces.len(),
            out@ == join_with(views(pieces@).take(i as int), sep@),
        decreases pieces.len() - i,
    {
        proof {
            assert(views(pieces@).take(i as int + 1).drop_last() =~= views(pieces@).take(i as int));
            assert(views(pieces@).take(i as int + 1).last() == pieces@[i as int]@);
        }
        if i > 0 {
            append_chars(&mut out, sep);
            append_chars(&mut out, &pieces[i]);
        } else {
            append_chars(&mut out, &pieces[i]);
            proof { assert(out@ =~= pieces@[0]@); }
        }
        i += 1;
    }
    proof { assert(views(pieces@).take(pieces.len() as int) =~= views(pieces@)); }
    out
}

/// `s` with each occurrence of `from` replaced by `to`, as `str::replace` does.
pub open spec fn replace(s: Seq<char>, from: Seq<char>, to: Seq<char>) -> Seq<char> {
    join_with(split_seq(s, from), to)
}

/// Replaces each occurrence of the non-empty `from` in `s` by `to`.
pub fn replace_chars(s: &Vec<char>, from: &Vec<char>, to: &Vec<char>) -> (r: Vec<char>)
    requires
        from.len() > 0,
    ensures
        r@ == replace(s@, from@, to@),
{
    let pieces = split_chars(s, from);
    join_chars(&pieces, to)
}

/// Splitting always gives at least one piece.
pub proof fn lemma_split_nonempty(s: Seq<char>, sep: Seq<char>, cur: Seq<char>)
    ensures
        split_acc(s, sep, cur).len() >= 1,
    decreases s.len(),
{
    if s.len() == 0 {
    } else if sep.len() > 0 && occurs_at(s, sep, 0) {
    } else {
        lemma_split_nonempty(s.drop_first(), sep, cur.push(s[0]));
    }
}

/// A line without the carriage return of a `\r\n` ending.
pub open spec fn strip_cr(l: Seq<char>) -> Seq<char> {
    if l.len() > 0 && l.last() == '\r' {
        l.drop_last()
    } else {
        l
    }
}

/// The lines of `s`, as `str::lines` gives them: split at `\n`, a `\r` before the
/// `\n` removed, no empty line after a final `\n`.
pub open spec fn lines_of(s: Seq<char>) -> Seq<Seq<char>> {
    let p = split_seq(s, seq!['\n']);
    let body = p.drop_last().map_values(|l: Seq<char>| strip_cr(l));
    if p.last().len() == 0 {
        body
    } else {
        body.push(p.last())
    }
}

/// The lines of `s`.
pub fn lines_chars(s: &Vec<char>) -> (r: Vec<Vec<char>>)
    ensures
        views(r@) == lines_of(s@),
{
    let mut nl: Vec<char> = Vec::new();
    nl.push('\n');
    proof {
        assert(nl@ =~= seq!['\n']);
        lemma_split_nonempty(s@, seq!['\n'], Seq::empty());
    }
    let pieces = split_chars(s, &nl);
    let ghost p = views(pieces@);
    let n = pieces.len();
    let mut out: Vec<Vec<char>> = Vec::new();
    let mut i: usize = 0;
    while i + 1 < n
        invariant
            n == pieces.len() >= 1,
            i + 1 <= n,
            p == views(pieces@),
            views(out@) == p.drop_last().take(i as int).map_values(|l: Seq<char>| strip_cr(l)),
        decreases n - i,
    {
        let piece = &pieces[i];
        let l = if piece.len() > 0 && piece[piece.len() - 1] == '\r' {
            sub_chars(piece, 0, piece.len() - 1)
        } else {
            piece.clone()
        };
        proof {
            assert(l@ =~= strip_cr(piece@));
            assert(p[i as int] == piece@);
            assert(p.drop_last().take(i as int + 1).map_values(|l: Seq<char>| strip_cr(l)) =~= p.drop_last().take(i as int).map_values(|l: Seq<char>| strip_cr(l)).push(strip_cr(p[i as int])));
            assert(views(out@.push(l)) =~= p.drop_last().take(i as int + 1).map_values(|l: Seq<char>| strip_cr(l)));
        }
        out.push(l);
        i += 1;
    }
    proof { assert(p.drop_last().take(i as int) =~= p.drop_last()); }
    let last = &pieces[n - 1];
    if last.len() > 0 {
        let l = last.clone();
        proof {
            assert(l@ =~= last@);
            assert(views(out@.push(l)) =~= views(out@).push(p.last()));
        }
        out.push(l);
    }
    out
}

/// Whether `c` occurs in `s`.
pub fn contains_char(s: &Vec<char>, c: char) -> (r: bool)
    ensures
        r == s@.contains(c),
{
    let mut i: usize = 0;
    while i < s.len()
        invariant
            i <= s.len(),
            forall|k: int| 0 <= k < i ==> s@[k] != c,
        decreases s.len() - i,
    {
        if s[i] == c {
            proof { assert(s@[i as int] == c); }
            return true;
        }
        i += 1;
    }
    false
}

/// The first `n` characters of `text`, or all of it where it is shorter.
pub fn preview(text: &str, n: usize) -> (r: String)
    ensures
        r@ == text@.take(if text@.len() < n { text@.len() as int } else { n as int }),
{
    let cs = to_chars(text);
    let end: usize = if cs.len() < n { cs.len() } else { n };
    let p = sub_chars(&cs, 0, end);
    proof { assert(p@ =~= text@.take(end as int)); }
    from_chars(&p)
}

/// Splitting a concatenation at a one-character separator: the pieces of the first
/// part but its last, then the pieces of the second part, the first continuing the
/// last piece of the first part.
pub proof fn lemma_split_concat(x: Seq<char>, y: Seq<char>, sep: Seq<char>, cur: Seq<char>)
    requires
        sep.len() == 1,
    ensures
        split_acc(x + y, sep, cur) == split_acc(x, sep, cur).drop_last() + split_acc(
            y,
            sep,
            split_acc(x, sep, cur).last(),
        ),
    decreases x.len(),
{
    lemma_split_nonempty(x, sep, cur);
    if x.len() == 0 {
        assert(x + y =~= y);
        assert(split_acc(x, sep, cur).drop_last() =~= Seq::<Seq<char>>::empty());
        assert(Seq::<Seq<char>>::empty() + split_acc(y, sep, cur) =~= split_acc(y, sep, cur));
    } else {
        assert((x + y).subrange(0, 1) =~= x.subrange(0, 1));
        if occurs_at(x, sep, 0) {
            let x1 = x.subrange(1, x.len() as int);
            assert((x + y).subrange(1, (x + y).len() as int) =~= x1 + y);
            assert(occurs_at(x + y, sep, 0));
            lemma_split_concat(x1, y, sep, Seq::empty());
            lemma_split_nonempty(x1, sep, Seq::empty());
            let t = split_acc(x1, sep, Seq::empty());
            assert((seq![cur] + t).drop_last() =~= seq![cur] + t.drop_last());
            assert((seq![cur] + t).last() == t.last());
            assert(seq![cur] + (t.drop_last() + split_acc(y, sep, t.last())) =~= (seq![cur] + t.drop_last()) + split_acc(y, sep, t.last()));
        } else {
            assert(!occurs_at(x + y, sep, 0));
            assert((x + y).drop_first() =~= x.drop_first() + y);
            assert((x + y)[0] == x[0]);
            lemma_split_concat(x.drop_first(), y, sep, cur.push(x[0]));
        }
    }
}

/// Splitting text without a separator in front of more text: the text joins the
/// piece being built.
pub proof fn lemma_split_plain_prefix(x: Seq<char>, y: Seq<char>, sep: Seq<char>, cur: Seq<char>)
    requires
        sep.len() == 1,
        !x.contains(sep[0]),
    ensures
        split_acc(x + y, sep, cur) == split_acc(y, sep, cur + x),
    decreases x.len(),
{
    if x.len() == 0 {
        assert(x + y =~= y);
        assert(cur + x =~= cur);
    } else {
        assert(x[0] != sep[0]);
        assert(!occurs_at(x + y, sep, 0)) by {
            if occurs_at(x + y, sep, 0) {
                assert((x + y).subrange(0, 1)[0] == sep[0]);
            }
        }
        assert((x + y).drop_first() =~= x.drop_first() + y);
        assert(!x.drop_first().contains(sep[0])) by {
            if x.drop_first().contains(sep[0]) {
                let i = choose|i: int| 0 <= i < x.drop_first().len() && x.drop_first()[i] == sep[0];
                assert(x[i + 1] == sep[0]);
            }
        }
        lemma_split_plain_prefix(x.drop_first(), y, sep, cur.push(x[0]));
        assert(cur.push(x[0]) + x.drop_first() =~= cur + x);
    }
}

/// The last piece of a split holds no separator when the piece it started from
/// held none.
pub proof fn lemma_split_last_plain(s: Seq<char>, sep: Seq<char>, cur: Seq<char>)
    requires
        sep.len() == 1,
        !cur.contains(sep[0]),
    ensures
        !split_acc(s, sep, cur).last().contains(sep[0]),
    decreases s.len(),
{
    lemma_split_nonempty(s, sep, cur);
    if s.len() == 0 {
    } else if occurs_at(s, sep, 0) {
        let s1 = s.subrange(1, s.len() as int);
        lemma_split_last_plain(s1, sep, Seq::empty());
        lemma_split_nonempty(s1, sep, Seq::empty());
        assert((seq![cur] + split_acc(s1, sep, Seq::empty())).last() == split_acc(s1, sep, Seq::empty()).last());
    } else {
        assert(s[0] != sep[0]) by {
            if s[0] == sep[0] {
                assert(s.subrange(0, 1) =~= sep);
            }
        }
        assert(!cur.push(s[0]).contains(sep[0])) by {
            if cur.push(s[0]).contains(sep[0]) {
                let i = choose|i: int| 0 <= i < cur.push(s[0]).len() && cur.push(s[0])[i] == sep[0];
                if i < cur.len() {
                    assert(cur[i] == sep[0]);
                }
            }
        }
        lemma_split_last_plain(s.drop_first(), sep, cur.push(s[0]));
    }
}

} // verus!
