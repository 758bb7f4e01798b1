//! Splitting cleaned text into overlapping chunks.
use vstd::prelude::*;

use crate::chars::{from_chars, to_chars};
use crate::text::{append_chars, join_with, split_chars, split_seq, sub_chars, views};

verus! {

/// The last `n` characters of `s`, or all of `s` where it is not longer.
pub open spec fn tail(s: Seq<char>, n: nat) -> Seq<char> {
    if s.len() > n {
        s.subrange(s.len() - n, s.len() as int)
    } else {
        s
    }
}

/// Whether adding `next` to the non-empty `cur` would go over `size`.
pub open spec fn overflows(cur: Seq<char>, next: Seq<char>, size: nat) -> bool {
    cur.len() > 0 && cur.len() + next.len() > size
}

/// The chunks emitted and the chunk being filled after packing `paras` greedily;
/// each emitted chunk seeds the next with its last `overlap` characters.
pub open spec fn pack_state(paras: Seq<Seq<char>>, size: nat, overlap: nat) -> (
    Seq<Seq<char>>,
    Seq<char>,
)
    decreases paras.len(),
{
    if paras.len() == 0 {
        (Seq::empty(), Seq::empty())
    } else {
        let prev = pack_state(paras.drop_last(), size, overlap);
        let para = paras.last();
        let flush = overflows(prev.1, para, size);
        let done = if flush {
            prev.0.push(prev.1)
        } else {
            prev.0
        };
        let carry = if flush {
            tail(prev.1, overlap)
        } else {
            prev.1
        };
        let cur = if carry.len() > 0 {
            carry + seq!['\n', '\n'] + para
        } else {
            para
        };
        (done, cur)
    }
}

/// The emitted chunks, followed by the one being filled if it is not empty.
pub open spec fn close(st: (Seq<Seq<char>>, Seq<char>)) -> Seq<Seq<char>> {
    if st.1.len() > 0 {
        st.0.push(st.1)
    } else {
        st.0
    }
}

/// First stage: paragraphs (separated by a blank line) packed up to `size`.
pub open spec fn pack_paragraphs(text: Seq<char>, size: nat, overlap: nat) -> Seq<Seq<char>> {
    close(pack_state(split_seq(text, seq!['\n', '\n']), size, overlap))
}

/// Sentences packed greedily up to `size`, each followed by a period, without overlap.
pub open spec fn sentence_state(sents: Seq<Seq<char>>, size: nat) -> (Seq<Seq<char>>, Seq<char>)
    decreases sents.len(),
{
    if sents.len() == 0 {
        (Seq::empty(), Seq::empty())
    } else {
        let prev = sentence_state(sents.drop_last(), size);
        let sent = sents.last();
        let flush = overflows(prev.1, sent, size);
        let done = if flush {
            prev.0.push(prev.1)
        } else {
            prev.0
        };
        let cur = if flush {
            Seq::empty()
        } else {
            prev.1
        };
        (done, cur + sent + seq!['.'])
    }
}

/// Whether a chunk is longer than twice the target size.
pub open spec fn too_long(c: Seq<char>, size: nat) -> bool {
    c.len() > 2 * size
}

/// A chunk re-split on periods where it is too long.
pub open spec fn refine_sentences(c: Seq<char>, size: nat) -> Seq<Seq<char>> {
    if too_long(c, size) {
        close(sentence_state(split_seq(c, seq!['.']), size))
    } else {
        seq![c]
    }
}

/// Second stage over all chunks.
pub open spec fn stage_sentences(chunks: Seq<Seq<char>>, size: nat) -> Seq<Seq<char>>
    decreases chunks.len(),
{
    if chunks.len() == 0 {
        Seq::empty()
    } else {
        stage_sentences(chunks.drop_last(), size) + refine_sentences(chunks.last(), size)
    }
}

/// Windows of width `size` starting at `i`, `i + step`, ...; the last one ends at the
/// end of `s`.
pub open spec fn windows(s: Seq<char>, size: nat, step: nat, i: nat) -> Seq<Seq<char>>
    decreases (if i < s.len() {
        s.len() - i
    } else {
        0
    }),
{
    if i >= s.len() || step == 0 {
        Seq::empty()
    } else {
        let end = if i + size < s.len() {
            (i + size) as int
        } else {
            s.len() as int
        };
        if end == s.len() {
            seq![s.subrange(i as int, end)]
        } else {
            seq![s.subrange(i as int, end)] + windows(s, size, step, i + step)
        }
    }
}

/// A chunk cut into windows where it is still too long.
pub open spec fn refine_windows(c: Seq<char>, size: nat, overlap: nat) -> Seq<Seq<char>> {
    if too_long(c, size) {
        windows(c, size, (size - overlap) as nat, 0)
    } else {
        seq![c]
    }
}

/// Third stage over all chunks.
pub open spec fn stage_windows(chunks: Seq<Seq<char>>, size: nat, overlap: nat) -> Seq<Seq<char>>
    decreases chunks.len(),
{
    if chunks.len() == 0 {
        Seq::empty()
    } else {
        stage_windows(chunks.drop_last(), size, overlap) + refine_windows(
            chunks.last(),
            size,
            overlap,
        )
    }
}

/// The chunks of `text` for a target size and overlap.
pub open spec fn chunks_of(text: Seq<char>, size: nat, overlap: nat) -> Seq<Seq<char>> {
    stage_windows(stage_sentences(pack_paragraphs(text, size, overlap), size), size, overlap)
}

/// The views of a sequence of strings.
pub open spec fn string_views(v: Seq<String>) -> Seq<Seq<char>> {
    v.map_values(|s: String| s@)
}

fn overflows_exec(cur: &Vec<char>, next: &Vec<char>, size: usize) -> (r: bool)
    ensures
        r == overflows(cur@, next@, size as nat),
{
    cur.len() > 0 && (cur.len() > size || next.len() > size - cur.len())
}

fn too_long_exec(c: &Vec<char>, size: usize) -> (r: bool)
    ensures
        r == too_long(c@, size as nat),
{
    c.len() > size && c.len() - size > size
}

fn pack_exec(paras: &Vec<Vec<char>>, size: usize, overlap: usize) -> (r: Vec<Vec<char>>)
    ensures
        views(r@) == close(pack_state(views(paras@), size as nat, overlap as nat)),
{
    let mut done: Vec<Vec<char>> = Vec::new();
    let mut cur: Vec<char> = Vec::new();
    let mut i: usize = 0;
    while i < paras.len()
        invariant
            i <= paras.len(),
            (views(done@), cur@) == pack_state(views(paras@).take(i as int), size as nat, overlap as nat),
        decreases paras.len() - i,
    {
        let para = &paras[i];
        proof {
            assert(views(paras@).take(i as int + 1).drop_last() =~= views(paras@).take(i as int));
            assert(views(paras@).take(i as int + 1).last() == para@);
        }
        if overflows_exec(&cur, para, size) {
            let start: usize = if cur.len() > overlap { cur.len() - overlap } else { 0 };
            let carry = sub_chars(&cur, start, cur.len());
            proof {
                assert(views(done@.push(cur)) =~= views(done@).push(cur@));
                if cur.len() <= overlap { assert(carry@ =~= cur@); }
            }
            done.push(cur);
            cur = carry;
        }
        if cur.len() > 0 {
            cur.push('\n');
            cur.push('\n');
            append_chars(&mut cur, para);
        } else {
            cur = para.clone();
            proof { assert(cur@ =~= para@); }
        }
        proof {
            let ghost st = pack_state(views(paras@).take(i as int + 1), size as nat, overlap as nat);
            assert(cur@ =~= st.1);
        }
        i += 1;
    }
    proof { assert(views(paras@).take(paras.len() as int) =~= views(paras@)); }
    if cur.len() > 0 {
        proof { assert(views(done@.push(cur)) =~= views(done@).push(cur@)); }
        done.push(cur);
    }
    done
}

fn sentences_exec(c: &Vec<char>, size: usize) -> (r: Vec<Vec<char>>)
    ensures
        views(r@) == close(sentence_state(split_seq(c@, seq!['.']), size as nat)),
{
    let mut dot: Vec<char> = Vec::new();
    dot.push('.');
    proof { assert(dot@ =~= seq!['.']); }
    let sents = split_chars(c, &dot);
    let mut done: Vec<Vec<char>> = Vec::new();
    let mut cur: Vec<char> = Vec::new();
    let mut i: usize = 0;
    while i < sents.len()
        invariant
            i <= sents.len(),
            views(sents@) == split_seq(c@, seq!['.']),
            (views(done@), cur@) == sentence_state(views(sents@).take(i as int), size as nat),
        decreases sents.len() - i,
    {
        let sent = &sents[i];
        proof {
            assert(views(sents@).take(i as int + 1).drop_last() =~= views(sents@).take(i as int));
            assert(views(sents@).take(i as int + 1).last() == sent@);
        }
        if overflows_exec(&cur, sent, size) {
            proof { assert(views(done@.push(cur)) =~= views(done@).push(cur@)); }
            done.push(cur);
            cur = Vec::new();
        }
        append_chars(&mut cur, sent);
        cur.push('.');
        i += 1;
    }
    proof { assert(views(sents@).take(sents.len() as int) =~= views(sents@)); }
    if cur.len() > 0 {
        proof { assert(views(done@.push(cur)) =~= views(done@).push(cur@)); }
        done.push(cur);
    }
    done
}

fn windows_exec(c: &Vec<char>, size: usize, step: usize) -> (r: Vec<Vec<char>>)
    requires
        step > 0,
    ensures
        views(r@) == windows(c@, size as nat, step as nat, 0),
{
    let mut out: Vec<Vec<char>> = Vec::new();
    let mut i: usize = 0;
    while i < c.len()
        invariant
            step > 0,
            views(out@) + windows(c@, size as nat, step as nat, i as nat) == windows(c@, size as nat, step as nat, 0),
        decreases c.len() - i,
    {
        let end: usize = if size < c.len() - i { i + size } else { c.len() };
        let w = sub_chars(c, i, end);
        proof { assert(views(out@.push(w)) =~= views(out@).push(w@)); }
        out.push(w);
        if end == c.len() {
            proof {
                assert(views(out@) =~= windows(c@, size as nat, step as nat, 0));
            }
            return out;
        }
        proof {
            assert(views(out@) + windows(c@, size as nat, step as nat, (i + step) as nat) =~= windows(c@, size as nat, step as nat, 0));
        }
        if step >= c.len() - i {
            proof { assert(views(out@) =~= windows(c@, size as nat, step as nat, 0)); }
            return out;
        }
        i = i + step;
    }
    proof { assert(views(out@) =~= windows(c@, size as nat, step as nat, 0)); }
    out
}

/// Splits cleaned text into chunks of about `chunk_size` characters: paragraphs are
/// packed greedily, each chunk carrying the last `chunk_overlap` characters of the one
/// before; a chunk over twice the size is re-split on periods; one still over twice
/// the size is cut into windows of `chunk_size` characters that advance by
/// `chunk_size - chunk_overlap`.
pub fn split_text(text: &str, chunk_size: usize, chunk_overlap: usize) -> (r: Vec<String>)
    requires
        chunk_overlap < chunk_size,
    ensures
        string_views(r@) == chunks_of(text@, chunk_size as nat, chunk_overlap as nat),
{
    let cs = to_chars(text);
    let mut sep: Vec<char> = Vec::new();
    sep.push('\n');
    sep.push('\n');
    proof { assert(sep@ =~= seq!['\n', '\n']); }
    let paras = split_chars(&cs, &sep);
    let packed = pack_exec(&paras, chunk_size, chunk_overlap);
    let ghost size = chunk_size as nat;
    let ghost overlap = chunk_overlap as nat;

    let mut second: Vec<Vec<char>> = Vec::new();
    let mut i: usize = 0;
    while i < packed.len()
        invariant
            i <= packed.len(),
            views(second@) == stage_sentences(views(packed@).take(i as int), size),
            size == chunk_size,
        decreases packed.len() - i,
    {
        proof {
            assert(views(packed@).take(i as int + 1).drop_last() =~= views(packed@).take(i as int));
            assert(views(packed@).take(i as int + 1).last() == packed@[i as int]@);
        }
        if too_long_exec(&packed[i], chunk_size) {
            let mut parts = sentences_exec(&packed[i], chunk_size);
            proof { assert(views(second@ + parts@) =~= views(second@) + views(parts@)); }
            second.append(&mut parts);
        } else {
            let c = packed[i].clone();
            proof { assert(views(second@.push(c)) =~= views(second@) + seq![c@]); }
            second.push(c);
        }
        i += 1;
    }
    proof { assert(views(packed@).take(packed.len() as int) =~= views(packed@)); }

    let mut third: Vec<Vec<char>> = Vec::new();
    let mut j: usize = 0;
    while j < second.len()
        invariant
            j <= second.len(),
            views(third@) == stage_windows(views(second@).take(j as int), size, overlap),
            size == chunk_size,
            overlap == chunk_overlap,
            chunk_overlap < chunk_size,
        decreases second.len() - j,
    {
        proof {
            assert(views(second@).take(j as int + 1).drop_last() =~= views(second@).take(j as int));
            assert(views(second@).take(j as int + 1).last() == second@[j as int]@);
        }
        if too_long_exec(&second[j], chunk_size) {
            let mut parts = windows_exec(&second[j], chunk_size, chunk_size - chunk_overlap);
            proof { assert(views(third@ + parts@) =~= views(third@) + views(parts@)); }
            third.append(&mut parts);
        } else {
            let c = second[j].clone();
            proof { assert(views(third@.push(c)) =~= views(third@) + seq![c@]); }
            third.push(c);
        }
        j += 1;
    }
    proof { assert(views(second@).take(second.len() as int) =~= views(second@)); }

    let mut out: Vec<String> = Vec::new();
    let mut k: usize = 0;
    while k < third.len()
        invariant
            k <= third.len(),
            string_views(out@) == views(third@).take(k as int),
        decreases third.len() - k,
    {
        let s = from_chars(&third[k]);
        proof {
            assert(string_views(out@.push(s)) =~= string_views(out@).push(s@));
            assert(views(third@).take(k as int + 1) =~= views(third@).take(k as int).push(third@[k as int]@));
        }
        out.push(s);
        k += 1;
    }
    proof { assert(views(third@).take(third.len() as int) =~= views(third@)); }
    out
}

/// The first window followed by each later one without its first `overlap`
/// characters, the part it shares with the window before.
pub open spec fn glue(ws: Seq<Seq<char>>, overlap: nat) -> Seq<char>
    decreases ws.len(),
{
    if ws.len() == 0 {
        Seq::empty()
    } else {
        ws[0] + glue_rest(ws.drop_first(), overlap)
    }
}

/// Each window without its first `overlap` characters, concatenated.
pub open spec fn glue_rest(ws: Seq<Seq<char>>, overlap: nat) -> Seq<char>
    decreases ws.len(),
{
    if ws.len() == 0 {
        Seq::empty()
    } else {
        ws[0].skip(overlap as int) + glue_rest(ws.drop_first(), overlap)
    }
}

proof fn lemma_windows_glue(s: Seq<char>, size: nat, overlap: nat, i: nat)
    requires
        overlap < size,
        i < s.len(),
    ensures
        glue(windows(s, size, (size - overlap) as nat, i), overlap) == s.skip(i as int),
        windows(s, size, (size - overlap) as nat, i).len() > 0,
        windows(s, size, (size - overlap) as nat, i)[0] == s.subrange(i as int, if i + size < s.len() { (i + size) as int } else { s.len() as int }),
    decreases s.len() - i,
{
    let step = (size - overlap) as nat;
    let ws = windows(s, size, step, i);
    if i + size < s.len() {
        let j = i + step;
        lemma_windows_glue(s, size, overlap, j);
        let rest = windows(s, size, step, j);
        assert(ws == seq![s.subrange(i as int, (i + size) as int)] + rest);
        assert(ws.drop_first() =~= rest);
        // the rest, each without its overlap, is the text after this window
        assert(glue_rest(rest, overlap) == rest[0].skip(overlap as int) + glue_rest(rest.drop_first(), overlap));
        assert(glue(rest, overlap) == rest[0] + glue_rest(rest.drop_first(), overlap));
        assert(rest[0].len() >= overlap);
        assert(glue(rest, overlap).skip(overlap as int) =~= rest[0].skip(overlap as int) + glue_rest(rest.drop_first(), overlap));
        assert(s.skip(j as int).skip(overlap as int) =~= s.skip((i + size) as int));
        assert(s.subrange(i as int, (i + size) as int) + s.skip((i + size) as int) =~= s.skip(i as int));
    } else {
        assert(ws == seq![s.subrange(i as int, s.len() as int)]);
        assert(ws.drop_first() =~= Seq::<Seq<char>>::empty());
        assert(s.subrange(i as int, s.len() as int) + Seq::<char>::empty() =~= s.skip(i as int));
    }
}

/// Cutting a chunk into windows loses nothing: the first window followed by each
/// later one without the `overlap` characters it carries over from the one before
/// is the chunk again.
pub proof fn law_windows_reassemble(s: Seq<char>, size: nat, overlap: nat)
    requires
        overlap < size,
        s.len() > 0,
    ensures
        glue(windows(s, size, (size - overlap) as nat, 0), overlap) == s,
{
    lemma_windows_glue(s, size, overlap, 0);
    assert(s.skip(0) =~= s);
}

/// What a chunk starts with after the chunks `done`: the last `overlap` characters
/// of the previous chunk and a blank line, where there is such a tail.
pub open spec fn carried(done: Seq<Seq<char>>, overlap: nat) -> Seq<char> {
    if done.len() == 0 {
        Seq::empty()
    } else if tail(done.last(), overlap).len() > 0 {
        tail(done.last(), overlap) + seq!['\n', '\n']
    } else {
        Seq::empty()
    }
}

/// The parts of the chunks of `pack_state` that are not carried over: for the
/// emitted chunks and for the one being filled.
pub open spec fn pack_bodies(paras: Seq<Seq<char>>, size: nat, overlap: nat) -> (Seq<Seq<char>>, Seq<char>)
    decreases paras.len(),
{
    if paras.len() == 0 {
        (Seq::empty(), Seq::empty())
    } else {
        let st = pack_state(paras.drop_last(), size, overlap);
        let prev = pack_bodies(paras.drop_last(), size, overlap);
        let para = paras.last();
        if overflows(st.1, para, size) {
            (prev.0.push(prev.1), para)
        } else if st.1.len() > 0 {
            (prev.0, prev.1 + seq!['\n', '\n'] + para)
        } else {
            (prev.0, para)
        }
    }
}

proof fn lemma_join_push(xs: Seq<Seq<char>>, a: Seq<char>, sep: Seq<char>)
    ensures
        join_with(xs.push(a), sep) == if xs.len() == 0 { a } else { join_with(xs, sep) + sep + a },
{
    assert(xs.push(a).drop_last() =~= xs);
    if xs.len() == 0 {
        assert(xs.push(a) =~= seq![a]);
    }
}

proof fn lemma_pack_bodies(paras: Seq<Seq<char>>, size: nat, overlap: nat)
    requires
        paras.len() > 0,
        forall|i: int| 0 <= i < paras.len() ==> (#[trigger] paras[i]).len() > 0,
    ensures
        ({
            let st = pack_state(paras, size, overlap);
            let b = pack_bodies(paras, size, overlap);
            &&& st.1.len() > 0
            &&& st.0.len() == b.0.len()
            &&& forall|i: int| 0 <= i < st.0.len() ==> #[trigger] st.0[i] == carried(st.0.take(i), overlap) + b.0[i]
            &&& st.1 == carried(st.0, overlap) + b.1
            &&& join_with(b.0.push(b.1), seq!['\n', '\n']) == join_with(paras, seq!['\n', '\n'])
        }),
    decreases paras.len(),
{
    let sep = seq!['\n', '\n'];
    let p = paras.last();
    let rest = paras.drop_last();
    assert(p == paras[paras.len() - 1]);
    if rest.len() == 0 {
        assert(paras =~= seq![p]);
        assert(pack_state(rest, size, overlap) == (Seq::<Seq<char>>::empty(), Seq::<char>::empty()));
        assert(pack_bodies(rest, size, overlap) == (Seq::<Seq<char>>::empty(), Seq::<char>::empty()));
        assert(Seq::<Seq<char>>::empty().push(p) =~= seq![p]);
        assert(Seq::<char>::empty() + p =~= p);
        let st2 = pack_state(paras, size, overlap);
        let b2 = pack_bodies(paras, size, overlap);
        assert(st2 == (Seq::<Seq<char>>::empty(), p));
        assert(b2 == (Seq::<Seq<char>>::empty(), p));
        assert(join_with(seq![p], sep) == p);
        assert(carried(Seq::<Seq<char>>::empty(), overlap) + p =~= p);
    } else {
        assert forall|i: int| 0 <= i < rest.len() implies (#[trigger] rest[i]).len() > 0 by {
            assert(rest[i] == paras[i]);
        }
        lemma_pack_bodies(rest, size, overlap);
        let st = pack_state(rest, size, overlap);
        let b = pack_bodies(rest, size, overlap);
        lemma_join_push(rest, p, sep);
        lemma_join_push(b.0, b.1, sep);
        if overflows(st.1, p, size) {
            let done = st.0.push(st.1);
            assert(done.drop_last() =~= st.0);
            assert(done.take(st.0.len() as int) =~= st.0);
            assert forall|i: int| 0 <= i < done.len() implies #[trigger] done[i] == carried(done.take(i), overlap) + b.0.push(b.1)[i] by {
                if i < st.0.len() {
                    assert(done.take(i) =~= st.0.take(i));
                }
            }
            lemma_join_push(b.0.push(b.1), p, sep);
            let t = tail(st.1, overlap);
            if t.len() > 0 {
                assert(carried(done, overlap) == t + sep);
            } else {
                assert(carried(done, overlap) =~= Seq::<char>::empty());
                assert(Seq::<char>::empty() + p =~= p);
            }
        } else {
            assert(st.1 + sep + p =~= carried(st.0, overlap) + (b.1 + sep + p));
            lemma_join_push(b.0, b.1 + sep + p, sep);
            if b.0.len() == 0 {
                assert(join_with(b.0.push(b.1), sep) == b.1);
            } else {
                assert(join_with(b.0, sep) + sep + (b.1 + sep + p) =~= join_with(b.0, sep) + sep + b.1 + sep + p);
            }
        }
        assert(paras.drop_last() == rest);
    }
}

/// Packing paragraphs loses nothing: each chunk is what it carries over from the
/// chunk before (that chunk's last `overlap` characters and a blank line) followed
/// by its own part, and the own parts joined by blank lines are the paragraphs
/// joined by blank lines.
pub proof fn law_packing_reassembles(paras: Seq<Seq<char>>, size: nat, overlap: nat)
    requires
        paras.len() > 0,
        forall|i: int| 0 <= i < paras.len() ==> (#[trigger] paras[i]).len() > 0,
    ensures
        ({
            let chunks = close(pack_state(paras, size, overlap));
            let b = pack_bodies(paras, size, overlap);
            let parts = b.0.push(b.1);
            &&& chunks.len() == parts.len()
            &&& forall|i: int| 0 <= i < chunks.len() ==> #[trigger] chunks[i] == carried(chunks.take(i), overlap) + parts[i]
            &&& join_with(parts, seq!['\n', '\n']) == join_with(paras, seq!['\n', '\n'])
        }),
{
    lemma_pack_bodies(paras, size, overlap);
    let st = pack_state(paras, size, overlap);
    let b = pack_bodies(paras, size, overlap);
    let chunks = st.0.push(st.1);
    assert(close(st) == chunks);
    assert forall|i: int| 0 <= i < chunks.len() implies #[trigger] chunks[i] == carried(chunks.take(i), overlap) + b.0.push(b.1)[i] by {
        if i < st.0.len() {
            assert(chunks.take(i) =~= st.0.take(i));
        } else {
            assert(chunks.take(i) =~= st.0);
        }
    }
}

} // verus!
