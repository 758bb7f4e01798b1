//! Query text for the full-text index and for its substring fallback.
use vstd::prelude::*;

use crate::chars::{from_chars, to_chars};
use crate::text::{is_white, is_white_char, join_chars, join_with, views};

verus! {

/// The words found so far in `s` and the word being read, words being runs of
/// characters that are not whitespace.
pub open spec fn words_state(s: Seq<char>) -> (Seq<Seq<char>>, Seq<char>)
    decreases s.len(),
{
    if s.len() == 0 {
        (Seq::empty(), Seq::empty())
    } else {
        let p = words_state(s.drop_last());
        if is_white(s.last()) {
            if p.1.len() > 0 {
                (p.0.push(p.1), Seq::empty())
            } else {
                p
            }
        } else {
            (p.0, p.1.push(s.last()))
        }
    }
}

/// The words of `s`, as `str::split_whitespace` gives them.
pub open spec fn words_of(s: Seq<char>) -> Seq<Seq<char>> {
    let st = words_state(s);
    if st.1.len() > 0 {
        st.0.push(st.1)
    } else {
        st.0
    }
}

/// The words of a query.
pub fn words(q: &str) -> (r: Vec<Vec<char>>)
    ensures
        views(r@) == words_of(q@),
{
    let cs = to_chars(q);
    let mut done: Vec<Vec<char>> = Vec::new();
    let mut cur: Vec<char> = Vec::new();
    let mut i: usize = 0;
    while i < cs.len()
        invariant
            i <= cs@.len(),
            cs@ == q@,
            (views(done@), cur@) == words_state(cs@.take(i as int)),
        decreases cs@.len() - i,
    {
        proof { assert(cs@.take(i as int + 1).drop_last() =~= cs@.take(i as int)); }
        let c = cs[i];
        if is_white_char(c) {
            if cur.len() > 0 {
                proof { assert(views(done@.push(cur)) =~= views(done@).push(cur@)); }
                done.push(cur);
                cur = Vec::new();
            }
        } else {
            cur.push(c);
        }
        i += 1;
    }
    proof { assert(cs@.take(i as int) =~= cs@); }
    if cur.len() > 0 {
        proof { assert(views(done@.push(cur)) =~= views(done@).push(cur@)); }
        done.push(cur);
    }
    done
}

/// The full-text query of a search: its words joined by ` OR `.
pub fn fts_query(q: &str) -> (r: String)
    ensures
        r@ == join_with(words_of(q@), " OR "@),
{
    let ws = words(q);
    let sep = to_chars(" OR ");
    from_chars(&join_chars(&ws, &sep))
}

/// The substring pattern of a search: its words in order, anything between and
/// around them (`%w1%w2%`).
pub fn like_pattern(q: &str) -> (r: String)
    ensures
        r@ == "%"@ + join_with(words_of(q@), "%"@) + "%"@,
{
    let ws = words(q);
    let pct = to_chars("%");
    let mut out = pct.clone();
    let body = join_chars(&ws, &pct);
    crate::text::append_chars(&mut out, &body);
    crate::text::append_chars(&mut out, &pct);
    proof { assert(pct@ == "%"@); }
    from_chars(&out)
}

} // verus!
