//! Reciprocal rank fusion of a vector ranking and a keyword ranking.
use vstd::prelude::*;

use crate::chars::{same_chars, to_chars};

verus! {

/// The constant of reciprocal rank fusion.
pub const RRF_K: u64 = 60;

/// Whether `a` comes before `b` in lexicographic order of code points.
pub open spec fn lex_lt(a: Seq<char>, b: Seq<char>) -> bool
    decreases a.len(),
{
    if a.len() == 0 {
        b.len() > 0
    } else if b.len() == 0 {
        false
    } else if a[0] != b[0] {
        a[0] < b[0]
    } else {
        lex_lt(a.drop_first(), b.drop_first())
    }
}

pub proof fn lemma_lex_irreflexive(a: Seq<char>)
    ensures
        !lex_lt(a, a),
    decreases a.len(),
{
    if a.len() > 0 {
        lemma_lex_irreflexive(a.drop_first());
    }
}

pub proof fn lemma_lex_total(a: Seq<char>, b: Seq<char>)
    requires
        a != b,
    ensures
        lex_lt(a, b) || lex_lt(b, a),
    decreases a.len(),
{
    if a.len() > 0 && b.len() > 0 && a[0] == b[0] {
        if a.drop_first() == b.drop_first() {
            assert(a =~= seq![a[0]] + a.drop_first());
            assert(b =~= seq![b[0]] + b.drop_first());
        }
        lemma_lex_total(a.drop_first(), b.drop_first());
    } else if a.len() > 0 && b.len() > 0 {
    } else if a.len() == 0 && b.len() == 0 {
        assert(a =~= b);
    }
}

pub proof fn lemma_lex_transitive(a: Seq<char>, b: Seq<char>, c: Seq<char>)
    requires
        lex_lt(a, b),
        lex_lt(b, c),
    ensures
        lex_lt(a, c),
    decreases a.len(),
{
    if a.len() > 0 && b.len() > 0 && c.len() > 0 && a[0] == b[0] && b[0] == c[0] {
        lemma_lex_transitive(a.drop_first(), b.drop_first(), c.drop_first());
    }
}

/// Whether `a` comes before `b` in lexicographic order.
pub fn lex_less(a: &str, b: &str) -> (r: bool)
    ensures
        r == lex_lt(a@, b@),
{
    let x = to_chars(a);
    let y = to_chars(b);
    let mut i: usize = 0;
    proof {
        assert(x@.skip(0) =~= x@);
        assert(y@.skip(0) =~= y@);
    }
    while i < x.len() && i < y.len() && x[i] == y[i]
        invariant
            i <= x.len(),
            i <= y.len(),
            x@ == a@,
            y@ == b@,
            lex_lt(a@, b@) == lex_lt(x@.skip(i as int), y@.skip(i as int)),
        decreases x.len() - i,
    {
        proof {
            assert(x@.skip(i as int).drop_first() =~= x@.skip(i as int + 1));
            assert(y@.skip(i as int).drop_first() =~= y@.skip(i as int + 1));
        }
        i += 1;
    }
    if i == x.len() {
        i < y.len()
    } else if i == y.len() {
        false
    } else {
        proof {
            assert(x@.skip(i as int)[0] == x@[i as int]);
            assert(y@.skip(i as int)[0] == y@[i as int]);
        }
        x[i] < y[i]
    }
}

/// The first position of `id` in a ranking.
pub open spec fn rank_in(list: Seq<Seq<char>>, id: Seq<char>) -> Option<nat>
    decreases list.len(),
{
    if list.len() == 0 {
        None
    } else {
        match rank_in(list.drop_last(), id) {
            Some(r) => Some(r),
            None => if list.last() == id {
                Some((list.len() - 1) as nat)
            } else {
                None
            },
        }
    }
}

/// The fused score `Σ 1/(k + rank)` of a chunk with the given ranks, as a numerator
/// over `fused_den`.
pub open spec fn fused_num(v: Option<nat>, k: Option<nat>) -> int {
    match (v, k) {
        (Some(a), Some(b)) => (RRF_K + a) + (RRF_K + b),
        (Some(a), None) => 1,
        (None, Some(b)) => 1,
        (None, None) => 0,
    }
}

/// The denominator of the fused score.
pub open spec fn fused_den(v: Option<nat>, k: Option<nat>) -> int {
    match (v, k) {
        (Some(a), Some(b)) => (RRF_K + a) * (RRF_K + b),
        (Some(a), None) => RRF_K + a,
        (None, Some(b)) => RRF_K + b,
        (None, None) => 1,
    }
}

/// A chunk of the fused ranking: its id and its rank in each source ranking.
#[derive(Debug, Clone, PartialEq, Eq)]
pub struct FusedRank {
    pub chunk_id: String,
    pub vector_rank: Option<usize>,
    pub keyword_rank: Option<usize>,
}

pub open spec fn opt_nat(o: Option<usize>) -> Option<nat> {
    match o {
        Some(r) => Some(r as nat),
        None => None,
    }
}

/// The view of a fused entry: id and ranks.
pub open spec fn fused_view(f: FusedRank) -> (Seq<char>, Option<nat>, Option<nat>) {
    (f.chunk_id@, opt_nat(f.vector_rank), opt_nat(f.keyword_rank))
}

/// Whether entry `x` goes before entry `y`: a higher fused score, or an equal score
/// and a smaller chunk id.
pub open spec fn outranks(x: (Seq<char>, Option<nat>, Option<nat>), y: (Seq<char>, Option<nat>, Option<nat>)) -> bool {
    let l = fused_num(x.1, x.2) * fused_den(y.1, y.2);
    let r = fused_num(y.1, y.2) * fused_den(x.1, x.2);
    l > r || (l == r && lex_lt(x.0, y.0))
}

/// The entry for `id` given two rankings.
pub open spec fn entry_for(vector: Seq<Seq<char>>, keyword: Seq<Seq<char>>, id: Seq<char>) -> (
    Seq<char>,
    Option<nat>,
    Option<nat>,
) {
    (id, rank_in(vector, id), rank_in(keyword, id))
}

/// Whether `id` is in either ranking.
pub open spec fn ranked(vector: Seq<Seq<char>>, keyword: Seq<Seq<char>>, id: Seq<char>) -> bool {
    vector.contains(id) || keyword.contains(id)
}

/// The views of a sequence of strings.
pub open spec fn ids_view(v: Seq<String>) -> Seq<Seq<char>> {
    v.map_values(|s: String| s@)
}

pub proof fn lemma_cross(nx: int, dx: int, ny: int, dy: int, nz: int, dz: int)
    requires
        dx > 0,
        dy > 0,
        dz > 0,
        nx * dy >= ny * dx,
        ny * dz >= nz * dy,
    ensures
        nx * dz >= nz * dx,
        (nx * dy > ny * dx || ny * dz > nz * dy) ==> nx * dz > nz * dx,
{
    assert((nx * dy) * dz >= (ny * dx) * dz) by (nonlinear_arith)
        requires nx * dy >= ny * dx, dz > 0;
    assert((ny * dz) * dx >= (nz * dy) * dx) by (nonlinear_arith)
        requires ny * dz >= nz * dy, dx > 0;
    assert((nx * dy) * dz == (nx * dz) * dy) by (nonlinear_arith);
    assert((ny * dx) * dz == (ny * dz) * dx) by (nonlinear_arith);
    assert((nz * dy) * dx == (nz * dx) * dy) by (nonlinear_arith);
    assert(nx * dz >= nz * dx) by (nonlinear_arith)
        requires (nx * dz) * dy >= (nz * dx) * dy, dy > 0;
    if nx * dy > ny * dx {
        assert((nx * dy) * dz > (ny * dx) * dz) by (nonlinear_arith)
            requires nx * dy > ny * dx, dz > 0;
        assert(nx * dz > nz * dx) by (nonlinear_arith)
            requires (nx * dz) * dy > (nz * dx) * dy, dy > 0;
    }
    if ny * dz > nz * dy {
        assert((ny * dz) * dx > (nz * dy) * dx) by (nonlinear_arith)
            requires ny * dz > nz * dy, dx > 0;
        assert(nx * dz > nz * dx) by (nonlinear_arith)
            requires (nx * dz) * dy > (nz * dx) * dy, dy > 0;
    }
}

pub proof fn lemma_den_positive(v: Option<nat>, k: Option<nat>)
    ensures
        fused_den(v, k) > 0,
{
    match (v, k) {
        (Some(a), Some(b)) => {
            assert((RRF_K + a) * (RRF_K + b) > 0) by (nonlinear_arith)
                requires RRF_K + a > 0, RRF_K + b > 0;
        },
        _ => {},
    }
}

pub proof fn lemma_outranks_transitive(
    x: (Seq<char>, Option<nat>, Option<nat>),
    y: (Seq<char>, Option<nat>, Option<nat>),
    z: (Seq<char>, Option<nat>, Option<nat>),
)
    requires
        outranks(x, y),
        outranks(y, z),
    ensures
        outranks(x, z),
{
    lemma_den_positive(x.1, x.2);
    lemma_den_positive(y.1, y.2);
    lemma_den_positive(z.1, z.2);
    lemma_cross(
        fused_num(x.1, x.2),
        fused_den(x.1, x.2),
        fused_num(y.1, y.2),
        fused_den(y.1, y.2),
        fused_num(z.1, z.2),
        fused_den(z.1, z.2),
    );
    if lex_lt(x.0, y.0) && lex_lt(y.0, z.0) {
        lemma_lex_transitive(x.0, y.0, z.0);
    }
}

pub proof fn lemma_outranks_total(x: (Seq<char>, Option<nat>, Option<nat>), y: (Seq<char>, Option<nat>, Option<nat>))
    requires
        x.0 != y.0,
    ensures
        outranks(x, y) || outranks(y, x),
{
    lemma_lex_total(x.0, y.0);
}

/// Ranks small enough to compute with.
pub open spec fn small_ranks(f: FusedRank) -> bool {
    (f.vector_rank matches Some(a) ==> a <= u32::MAX) && (f.keyword_rank matches Some(b) ==> b
        <= u32::MAX)
}

fn score_parts(f: &FusedRank) -> (r: (u128, u128))
    requires
        small_ranks(*f),
    ensures
        r.0 as int == fused_num(opt_nat(f.vector_rank), opt_nat(f.keyword_rank)),
        r.1 as int == fused_den(opt_nat(f.vector_rank), opt_nat(f.keyword_rank)),
        r.0 <= 0x4_0000_0000,
        r.1 <= 0x2_0000_0000_0000_0000,
{
    match (f.vector_rank, f.keyword_rank) {
        (Some(a), Some(b)) => {
            let x: u128 = 60 + a as u128;
            let y: u128 = 60 + b as u128;
            assert(x * y <= 0x2_0000_0000_0000_0000) by (nonlinear_arith)
                requires x <= 0x1_0000_0000 + 60, y <= 0x1_0000_0000 + 60;
            (x + y, x * y)
        },
        (Some(a), None) => (1, 60 + a as u128),
        (None, Some(b)) => (1, 60 + b as u128),
        (None, None) => (0, 1),
    }
}

/// Whether `x` goes before `y` in the fused ranking.
pub fn outranks_exec(x: &FusedRank, y: &FusedRank) -> (r: bool)
    requires
        small_ranks(*x),
        small_ranks(*y),
    ensures
        r == outranks(fused_view(*x), fused_view(*y)),
{
    let (nx, dx) = score_parts(x);
    let (ny, dy) = score_parts(y);
    assert(nx * dy <= 0x8_0000_0000_0000_0000_0000_0000) by (nonlinear_arith)
        requires nx <= 0x4_0000_0000, dy <= 0x2_0000_0000_0000_0000;
    assert(ny * dx <= 0x8_0000_0000_0000_0000_0000_0000) by (nonlinear_arith)
        requires ny <= 0x4_0000_0000, dx <= 0x2_0000_0000_0000_0000;
    let l = nx * dy;
    let rr = ny * dx;
    l > rr || (l == rr && lex_less(x.chunk_id.as_str(), y.chunk_id.as_str()))
}

/// The entries of `v` have pairwise different ids.
pub open spec fn distinct_ids(v: Seq<FusedRank>) -> bool {
    forall|i: int, j: int| 0 <= i < v.len() && 0 <= j < v.len() && i != j ==> v[i].chunk_id@ != v[j].chunk_id@
}

/// Picks the `top_k` best entries, best first.
pub fn select_top(entries: Vec<FusedRank>, top_k: usize) -> (r: Vec<FusedRank>)
    requires
        distinct_ids(entries@),
        forall|i: int| 0 <= i < entries@.len() ==> small_ranks(#[trigger] entries@[i]),
    ensures
        r@.len() == if top_k < entries@.len() { top_k as int } else { entries@.len() as int },
        forall|i: int, j: int| 0 <= i < j < r@.len() ==> outranks(fused_view(r@[i]), fused_view(r@[j])),
        forall|i: int| 0 <= i < r@.len() ==> entries@.contains(#[trigger] r@[i]),
        forall|p: int| 0 <= p < entries@.len() ==> r@.contains(#[trigger] entries@[p]) || (forall|i: int|
            0 <= i < r@.len() ==> outranks(fused_view(#[trigger] r@[i]), fused_view(entries@[p]))),
        r@.len() < top_k ==> forall|p: int| 0 <= p < entries@.len() ==> r@.contains(#[trigger] entries@[p]),
{
    let ghost all = entries@;
    let mut rest = entries;
    let mut out: Vec<FusedRank> = Vec::new();
    while out.len() < top_k && rest.len() > 0
        invariant
            out@.len() + rest@.len() == all.len(),
            out@.len() <= top_k,
            distinct_ids(rest@),
            forall|i: int| 0 <= i < rest@.len() ==> small_ranks(#[trigger] rest@[i]),
            forall|i: int, j: int| 0 <= i < j < out@.len() ==> outranks(fused_view(out@[i]), fused_view(out@[j])),
            forall|i: int, q: int| 0 <= i < out@.len() && 0 <= q < rest@.len() ==> outranks(fused_view(out@[i]), fused_view(rest@[q])),
            forall|i: int| 0 <= i < out@.len() ==> all.contains(#[trigger] out@[i]),
            forall|i: int| 0 <= i < rest@.len() ==> all.contains(#[trigger] rest@[i]),
            forall|p: int| 0 <= p < all.len() ==> out@.contains(#[trigger] all[p]) || rest@.contains(all[p]),
        decreases rest@.len(),
    {
        let mut best: usize = 0;
        let mut q: usize = 1;
        while q < rest.len()
            invariant
                1 <= q <= rest@.len(),
                best < q,
                distinct_ids(rest@),
                forall|i: int| 0 <= i < rest@.len() ==> small_ranks(#[trigger] rest@[i]),
                forall|t: int| 0 <= t < q && t != best ==> outranks(fused_view(rest@[best as int]), fused_view(#[trigger] rest@[t])),
            decreases rest@.len() - q,
        {
            if outranks_exec(&rest[q], &rest[best]) {
                proof {
                    assert forall|t: int| 0 <= t < q + 1 && t != q implies outranks(fused_view(rest@[q as int]), fused_view(#[trigger] rest@[t])) by {
                        if t != best {
                            lemma_outranks_transitive(fused_view(rest@[q as int]), fused_view(rest@[best as int]), fused_view(rest@[t]));
                        }
                    }
                }
                best = q;
            } else {
                proof {
                    lemma_outranks_total(fused_view(rest@[q as int]), fused_view(rest@[best as int]));
                }
            }
            q += 1;
        }
        let ghost before = rest@;
        let b = rest.remove(best);
        proof {
            assert forall|t: int| 0 <= t < rest@.len() implies outranks(fused_view(b), fused_view(#[trigger] rest@[t])) by {
                if t < best {
                    assert(rest@[t] == before[t]);
                } else {
                    assert(rest@[t] == before[t + 1]);
                }
            }
            assert forall|p: int| 0 <= p < all.len() implies out@.push(b).contains(#[trigger] all[p]) || rest@.contains(all[p]) by {
                if out@.contains(all[p]) {
                    let i = choose|i: int| 0 <= i < out@.len() && out@[i] == all[p];
                    assert(out@.push(b)[i] == all[p]);
                } else {
                    let t = choose|t: int| 0 <= t < before.len() && before[t] == all[p];
                    if t == best {
                        assert(out@.push(b)[out@.len() as int] == all[p]);
                    } else if t < best {
                        assert(rest@[t] == all[p]);
                    } else {
                        assert(rest@[t - 1] == all[p]);
                    }
                }
            }
            assert forall|i: int, j: int| 0 <= i < rest@.len() && 0 <= j < rest@.len() && i != j implies rest@[i].chunk_id@ != rest@[j].chunk_id@ by {
                let i2 = if i < best { i } else { i + 1 };
                let j2 = if j < best { j } else { j + 1 };
                assert(rest@[i] == before[i2]);
                assert(rest@[j] == before[j2]);
            }
            assert forall|i: int| 0 <= i < rest@.len() implies all.contains(#[trigger] rest@[i]) by {
                let i2 = if i < best { i } else { i + 1 };
                assert(rest@[i] == before[i2]);
            }
            assert forall|i: int| 0 <= i < rest@.len() implies small_ranks(#[trigger] rest@[i]) by {
                let i2 = if i < best { i } else { i + 1 };
                assert(rest@[i] == before[i2]);
            }
            assert forall|i: int, q2: int| 0 <= i < out@.len() + 1 && 0 <= q2 < rest@.len() implies outranks(fused_view(out@.push(b)[i]), fused_view(rest@[q2])) by {
                let q3 = if q2 < best { q2 } else { q2 + 1 };
                assert(rest@[q2] == before[q3]);
            }
            assert(all.contains(b)) by {
                assert(before[best as int] == b);
            }
        }
        out.push(b);
    }
    proof {
        assert forall|p: int| 0 <= p < all.len() implies out@.contains(#[trigger] all[p]) || (forall|i: int|
            0 <= i < out@.len() ==> outranks(fused_view(#[trigger] out@[i]), fused_view(all[p]))) by {
            if !out@.contains(all[p]) {
                let t = choose|t: int| 0 <= t < rest@.len() && rest@[t] == all[p];
            }
        }
    }
    out
}

pub proof fn lemma_rank_in(list: Seq<Seq<char>>, id: Seq<char>)
    ensures
        rank_in(list, id) is Some <==> list.contains(id),
        rank_in(list, id) matches Some(r) ==> r < list.len() && list[r as int] == id,
    decreases list.len(),
{
    if list.len() > 0 {
        lemma_rank_in(list.drop_last(), id);
        if list.drop_last().contains(id) {
            let i = choose|i: int| 0 <= i < list.drop_last().len() && list.drop_last()[i] == id;
            assert(list[i] == id);
        }
        if list.contains(id) && !list.drop_last().contains(id) {
            let i = choose|i: int| 0 <= i < list.len() && list[i] == id;
            if i < list.len() - 1 {
                assert(list.drop_last()[i] == id);
            }
        }
    }
}

/// The position of the entry with id `id`.
fn position_of(r: &Vec<FusedRank>, id: &str) -> (p: Option<usize>)
    ensures
        p matches Some(i) ==> i < r@.len() && r@[i as int].chunk_id@ == id@,
        p is None ==> forall|i: int| 0 <= i < r@.len() ==> r@[i].chunk_id@ != id@,
{
    let mut i: usize = 0;
    while i < r.len()
        invariant
            i <= r@.len(),
            forall|t: int| 0 <= t < i ==> r@[t].chunk_id@ != id@,
        decreases r@.len() - i,
    {
        if same_chars(r[i].chunk_id.as_str(), id) {
            return Some(i);
        }
        i += 1;
    }
    None
}

/// One entry for each chunk of either ranking, with its first rank in each. The
/// entries are found by scanning for the id's characters: a map keyed by `String`
/// would leave the proof nothing to say of its lookups.
pub fn union_ranks(vector: &Vec<String>, keyword: &Vec<String>) -> (r: Vec<FusedRank>)
    requires
        vector@.len() <= u32::MAX,
        keyword@.len() <= u32::MAX,
    ensures
        distinct_ids(r@),
        forall|i: int| 0 <= i < r@.len() ==> small_ranks(#[trigger] r@[i]),
        forall|i: int| 0 <= i < r@.len() ==> fused_view(#[trigger] r@[i]) == entry_for(ids_view(vector@), ids_view(keyword@), r@[i].chunk_id@)
            && ranked(ids_view(vector@), ids_view(keyword@), r@[i].chunk_id@),
        forall|id: Seq<char>| ranked(ids_view(vector@), ids_view(keyword@), id) ==> exists|i: int| 0 <= i < r@.len() && #[trigger] r@[i].chunk_id@ == id,
{
    let ghost vv = ids_view(vector@);
    let ghost kv = ids_view(keyword@);
    let mut r: Vec<FusedRank> = Vec::new();
    let mut i: usize = 0;
    while i < vector.len()
        invariant
            i <= vector@.len() <= u32::MAX,
            vv == ids_view(vector@),
            distinct_ids(r@),
            forall|p: int| 0 <= p < r@.len() ==> small_ranks(#[trigger] r@[p]),
            forall|p: int| 0 <= p < r@.len() ==> fused_view(#[trigger] r@[p]) == (r@[p].chunk_id@, rank_in(vv.take(i as int), r@[p].chunk_id@), None::<nat>),
            forall|p: int| 0 <= p < r@.len() ==> (#[trigger] r@[p]).vector_rank is Some,
            forall|id: Seq<char>| #![auto] rank_in(vv.take(i as int), id) is Some ==> exists|p: int| 0 <= p < r@.len() && #[trigger] r@[p].chunk_id@ == id,
        decreases vector@.len() - i,
    {
        let ghost prev = r@;
        let ghost next = vv.take(i as int + 1);
        proof {
            assert(vv.take(i as int + 1).drop_last() =~= vv.take(i as int));
            assert(vv.take(i as int + 1).last() == vector@[i as int]@);
        }
        match position_of(&r, vector[i].as_str()) {
            Some(_) => {
                proof {
                    assert forall|id: Seq<char>| #![auto] rank_in(next, id) is Some implies exists|p: int| 0 <= p < r@.len() && #[trigger] r@[p].chunk_id@ == id by {
                        if rank_in(vv.take(i as int), id) is None {
                            assert(id == vector@[i as int]@);
                        }
                    }
                    assert forall|p: int| 0 <= p < r@.len() implies fused_view(#[trigger] r@[p]) == (r@[p].chunk_id@, rank_in(vv.take(i as int + 1), r@[p].chunk_id@), None::<nat>) by {
                        assert(r@[p].vector_rank is Some);
                    }
                }
            },
            None => {
                let e = FusedRank { chunk_id: vector[i].clone(), vector_rank: Some(i), keyword_rank: None };
                proof {
                    assert(rank_in(vv.take(i as int), vector@[i as int]@) is None);
                }
                r.push(e);
                proof {
                    assert forall|p: int| 0 <= p < r@.len() implies fused_view(#[trigger] r@[p]) == (r@[p].chunk_id@, rank_in(vv.take(i as int + 1), r@[p].chunk_id@), None::<nat>) by {
                        if p < prev.len() {
                            assert(r@[p] == prev[p]);
                        }
                    }
                    assert forall|id: Seq<char>| #![auto] rank_in(next, id) is Some implies exists|p: int| 0 <= p < r@.len() && #[trigger] r@[p].chunk_id@ == id by {
                        if rank_in(vv.take(i as int), id) is Some {
                            let p = choose|p: int| 0 <= p < prev.len() && #[trigger] prev[p].chunk_id@ == id;
                            assert(r@[p] == prev[p]);
                        } else {
                            assert(r@[prev.len() as int].chunk_id@ == id);
                        }
                    }
                    assert forall|p: int| 0 <= p < r@.len() implies small_ranks(#[trigger] r@[p]) by {
                        if p < prev.len() {
                            assert(r@[p] == prev[p]);
                        }
                    }
                    assert forall|p: int| 0 <= p < r@.len() implies (#[trigger] r@[p]).vector_rank is Some by {
                        if p < prev.len() {
                            assert(r@[p] == prev[p]);
                        }
                    }
                }
            },
        }
        i += 1;
    }
    proof {
        assert(vv.take(vector@.len() as int) =~= vv);
        assert(kv.take(0) =~= Seq::<Seq<char>>::empty());
        assert forall|p: int| 0 <= p < r@.len() implies rank_in(vv, #[trigger] r@[p].chunk_id@) is Some by {
            assert(r@[p].vector_rank is Some);
        }
    }
    let mut j: usize = 0;
    while j < keyword.len()
        invariant
            j <= keyword@.len() <= u32::MAX,
            vv == ids_view(vector@),
            kv == ids_view(keyword@),
            distinct_ids(r@),
            forall|p: int| 0 <= p < r@.len() ==> small_ranks(#[trigger] r@[p]),
            forall|p: int| 0 <= p < r@.len() ==> fused_view(#[trigger] r@[p]) == (r@[p].chunk_id@, rank_in(vv, r@[p].chunk_id@), rank_in(kv.take(j as int), r@[p].chunk_id@)),
            forall|p: int| 0 <= p < r@.len() ==> rank_in(vv, #[trigger] r@[p].chunk_id@) is Some || rank_in(kv.take(j as int), r@[p].chunk_id@) is Some,
            forall|id: Seq<char>| #![auto] rank_in(vv, id) is Some || rank_in(kv.take(j as int), id) is Some ==> exists|p: int| 0 <= p < r@.len() && #[trigger] r@[p].chunk_id@ == id,
        decreases keyword@.len() - j,
    {
        let ghost prev = r@;
        let ghost kid = keyword@[j as int]@;
        let ghost next = kv.take(j as int + 1);
        proof {
            assert(kv.take(j as int + 1).drop_last() =~= kv.take(j as int));
            assert(kv.take(j as int + 1).last() == kid);
        }
        match position_of(&r, keyword[j].as_str()) {
            Some(p) => {
                if r[p].keyword_rank.is_none() {
                    r[p].keyword_rank = Some(j);
                }
                proof {
                    assert forall|t: int| 0 <= t < r@.len() implies fused_view(#[trigger] r@[t]) == (r@[t].chunk_id@, rank_in(vv, r@[t].chunk_id@), rank_in(kv.take(j as int + 1), r@[t].chunk_id@)) by {
                        if t != p {
                            assert(r@[t] == prev[t]);
                        }
                    }
                    assert forall|t: int| 0 <= t < r@.len() implies small_ranks(#[trigger] r@[t]) by {
                        if t != p {
                            assert(r@[t] == prev[t]);
                        }
                    }
                    assert forall|t: int| 0 <= t < r@.len() implies rank_in(vv, #[trigger] r@[t].chunk_id@) is Some || rank_in(kv.take(j as int + 1), r@[t].chunk_id@) is Some by {
                        assert(r@[t].chunk_id@ == prev[t].chunk_id@);
                    }
                    assert forall|a: int, b: int| 0 <= a < r@.len() && 0 <= b < r@.len() && a != b implies r@[a].chunk_id@ != r@[b].chunk_id@ by {
                        assert(r@[a].chunk_id@ == prev[a].chunk_id@);
                        assert(r@[b].chunk_id@ == prev[b].chunk_id@);
                    }
                    assert forall|id: Seq<char>| #![auto] rank_in(vv, id) is Some || rank_in(next, id) is Some implies exists|q: int| 0 <= q < r@.len() && #[trigger] r@[q].chunk_id@ == id by {
                        if rank_in(vv, id) is Some || rank_in(kv.take(j as int), id) is Some {
                            let q = choose|q: int| 0 <= q < prev.len() && #[trigger] prev[q].chunk_id@ == id;
                            assert(r@[q].chunk_id@ == id);
                        } else {
                            assert(r@[p as int].chunk_id@ == id);
                        }
                    }
                }
            },
            None => {
                let e = FusedRank { chunk_id: keyword[j].clone(), vector_rank: None, keyword_rank: Some(j) };
                proof {
                    assert(rank_in(kv.take(j as int), kid) is None);
                    assert(rank_in(vv, kid) is None);
                }
                r.push(e);
                proof {
                    assert forall|t: int| 0 <= t < r@.len() implies fused_view(#[trigger] r@[t]) == (r@[t].chunk_id@, rank_in(vv, r@[t].chunk_id@), rank_in(kv.take(j as int + 1), r@[t].chunk_id@)) by {
                        if t < prev.len() {
                            assert(r@[t] == prev[t]);
                        }
                    }
                    assert forall|t: int| 0 <= t < r@.len() implies small_ranks(#[trigger] r@[t]) by {
                        if t < prev.len() {
                            assert(r@[t] == prev[t]);
                        }
                    }
                    assert forall|t: int| 0 <= t < r@.len() implies rank_in(vv, #[trigger] r@[t].chunk_id@) is Some || rank_in(kv.take(j as int + 1), r@[t].chunk_id@) is Some by {
                        if t < prev.len() {
                            assert(r@[t] == prev[t]);
                        }
                    }
                    assert forall|id: Seq<char>| #![auto] rank_in(vv, id) is Some || rank_in(next, id) is Some implies exists|q: int| 0 <= q < r@.len() && #[trigger] r@[q].chunk_id@ == id by {
                        if rank_in(vv, id) is Some || rank_in(kv.take(j as int), id) is Some {
                            let q = choose|q: int| 0 <= q < prev.len() && #[trigger] prev[q].chunk_id@ == id;
                            assert(r@[q] == prev[q]);
                        } else {
                            assert(r@[prev.len() as int].chunk_id@ == id);
                        }
                    }
                }
            },
        }
        j += 1;
    }
    proof {
        assert(kv.take(keyword@.len() as int) =~= kv);
        assert forall|t: int| 0 <= t < r@.len() implies fused_view(#[trigger] r@[t]) == entry_for(vv, kv, r@[t].chunk_id@)
            && ranked(vv, kv, r@[t].chunk_id@) by {
            lemma_rank_in(vv, r@[t].chunk_id@);
            lemma_rank_in(kv, r@[t].chunk_id@);
        }
        assert forall|id: Seq<char>| ranked(vv, kv, id) implies exists|i: int| 0 <= i < r@.len() && #[trigger] r@[i].chunk_id@ == id by {
            lemma_rank_in(vv, id);
            lemma_rank_in(kv, id);
        }
    }
    r
}

/// A fused ranking of two rankings, as views: at most `top_k` entries, each a ranked
/// chunk with its ranks, in strict fused order, and no ranked chunk left out that
/// would go before the last one kept.
pub open spec fn fused_ranking(
    v: Seq<Seq<char>>,
    k: Seq<Seq<char>>,
    top_k: nat,
    r: Seq<(Seq<char>, Option<nat>, Option<nat>)>,
) -> bool {
    &&& r.len() <= top_k
    &&& forall|i: int| 0 <= i < r.len() ==> #[trigger] r[i] == entry_for(v, k, r[i].0) && ranked(v, k, r[i].0)
    &&& forall|i: int, j: int| 0 <= i < j < r.len() ==> outranks(r[i], r[j])
    &&& forall|id: Seq<char>| ranked(v, k, id) ==> (exists|i: int| 0 <= i < r.len() && #[trigger] r[i].0 == id) || (r.len()
        == top_k && forall|i: int| 0 <= i < r.len() ==> outranks(#[trigger] r[i], entry_for(v, k, id)))
}

/// Fuses a vector ranking and a keyword ranking (chunk ids, best first) by
/// reciprocal rank fusion: each chunk scores `Σ 1/(60 + rank)` over the rankings it
/// is in, ranks counted from zero. The `top_k` best come out, best first, ties going
/// to the smaller chunk id.
pub fn merge_rankings(vector: &Vec<String>, keyword: &Vec<String>, top_k: usize) -> (r: Vec<FusedRank>)
    requires
        vector@.len() <= u32::MAX,
        keyword@.len() <= u32::MAX,
    ensures
        r@.len() <= top_k,
        forall|i: int| 0 <= i < r@.len() ==> fused_view(#[trigger] r@[i]) == entry_for(ids_view(vector@), ids_view(keyword@), r@[i].chunk_id@)
            && ranked(ids_view(vector@), ids_view(keyword@), r@[i].chunk_id@),
        forall|i: int, j: int| 0 <= i < j < r@.len() ==> outranks(fused_view(r@[i]), fused_view(r@[j])),
        forall|id: Seq<char>| ranked(ids_view(vector@), ids_view(keyword@), id) ==> (exists|i: int| 0 <= i < r@.len() && #[trigger] r@[i].chunk_id@ == id)
            || (r@.len() == top_k && forall|i: int| 0 <= i < r@.len() ==> outranks(fused_view(#[trigger] r@[i]), entry_for(ids_view(vector@), ids_view(keyword@), id))),
        fused_ranking(ids_view(vector@), ids_view(keyword@), top_k as nat, r@.map_values(|f: FusedRank| fused_view(f))),
{
    let all = union_ranks(vector, keyword);
    let ghost u = all@;
    let r = select_top(all, top_k);
    proof {
        assert forall|i: int| 0 <= i < r@.len() implies fused_view(#[trigger] r@[i]) == entry_for(ids_view(vector@), ids_view(keyword@), r@[i].chunk_id@)
            && ranked(ids_view(vector@), ids_view(keyword@), r@[i].chunk_id@) by {
            assert(u.contains(r@[i]));
        }
        assert forall|id: Seq<char>| ranked(ids_view(vector@), ids_view(keyword@), id) implies (exists|i: int| 0 <= i < r@.len() && #[trigger] r@[i].chunk_id@ == id)
            || (r@.len() == top_k && forall|i: int| 0 <= i < r@.len() ==> outranks(fused_view(#[trigger] r@[i]), entry_for(ids_view(vector@), ids_view(keyword@), id))) by {
            let p = choose|p: int| 0 <= p < u.len() && #[trigger] u[p].chunk_id@ == id;
            if r@.contains(u[p]) {
                let i = choose|i: int| 0 <= i < r@.len() && r@[i] == u[p];
                assert(r@[i].chunk_id@ == id);
            } else {
                assert(fused_view(u[p]) == entry_for(ids_view(vector@), ids_view(keyword@), id));
            }
        }
        let rv = r@.map_values(|f: FusedRank| fused_view(f));
        assert forall|id: Seq<char>| ranked(ids_view(vector@), ids_view(keyword@), id) implies (exists|i: int| 0 <= i < rv.len() && #[trigger] rv[i].0 == id) || (rv.len()
            == top_k && forall|i: int| 0 <= i < rv.len() ==> outranks(#[trigger] rv[i], entry_for(ids_view(vector@), ids_view(keyword@), id))) by {
            if exists|i: int| 0 <= i < r@.len() && #[trigger] r@[i].chunk_id@ == id {
                let i = choose|i: int| 0 <= i < r@.len() && #[trigger] r@[i].chunk_id@ == id;
                assert(rv[i].0 == id);
            } else {
                assert forall|i: int| 0 <= i < rv.len() implies outranks(#[trigger] rv[i], entry_for(ids_view(vector@), ids_view(keyword@), id)) by {
                    assert(rv[i] == fused_view(r@[i]));
                }
            }
        }
    }
    r
}

/// The chunks of a ranking are pairwise different.
pub open spec fn distinct(ids: Seq<Seq<char>>) -> bool {
    forall|i: int, j: int| 0 <= i < ids.len() && 0 <= j < ids.len() && i != j ==> ids[i] != ids[j]
}

proof fn lemma_rank_of_distinct(ids: Seq<Seq<char>>, j: int)
    requires
        distinct(ids),
        0 <= j < ids.len(),
    ensures
        rank_in(ids, ids[j]) == Some(j as nat),
    decreases ids.len(),
{
    if j < ids.len() - 1 {
        assert forall|a: int, b: int| 0 <= a < ids.drop_last().len() && 0 <= b < ids.drop_last().len() && a != b implies ids.drop_last()[a] != ids.drop_last()[b] by {
            assert(ids.drop_last()[a] == ids[a]);
            assert(ids.drop_last()[b] == ids[b]);
        }
        lemma_rank_of_distinct(ids.drop_last(), j);
        assert(ids.drop_last()[j] == ids[j]);
    } else {
        lemma_rank_in(ids.drop_last(), ids[j]);
        if ids.drop_last().contains(ids[j]) {
            let a = choose|a: int| 0 <= a < ids.drop_last().len() && ids.drop_last()[a] == ids[j];
            assert(ids[a] == ids[j]);
        }
    }
}

proof fn lemma_same_rank_order(x: Seq<char>, y: Seq<char>, a: nat, b: nat)
    requires
        outranks((x, Some(a), Some(a)), (y, Some(b), Some(b))),
        a != b,
    ensures
        a < b,
{
    let pa = RRF_K + a;
    let pb = RRF_K + b;
    if a > b {
        assert((pa + pa) * (pb * pb) < (pb + pb) * (pa * pa)) by (nonlinear_arith)
            requires pa > pb, pb > 0;
    }
}

proof fn lemma_single_rank_order(x: Seq<char>, y: Seq<char>, a: nat, b: nat)
    requires
        outranks((x, None, Some(a)), (y, None, Some(b))),
        a != b,
    ensures
        a < b,
{
}

proof fn lemma_identity_ranks(ids: Seq<Seq<char>>, top_k: nat, both: Seq<(Seq<char>, Option<nat>, Option<nat>)>, i: int)
    requires
        distinct(ids),
        fused_ranking(ids, ids, top_k, both),
        0 <= i < both.len(),
        forall|j: int| 0 <= j < both.len() ==> (#[trigger] both[j]).1 is Some && both[j].1 == both[j].2
            && (both[j].1->0) < ids.len() && ids[both[j].1->0 as int] == both[j].0,
        forall|a: int, b: int| 0 <= a < b < both.len() ==> (both[a].1->0) < (both[b].1->0),
    ensures
        both[i].1 == Some(i as nat),
    decreases i,
{
    if i > 0 {
        lemma_identity_ranks(ids, top_k, both, i - 1);
    }
    let r = both[i].1->0;
    if r > i {
        let id = ids[i];
        lemma_rank_of_distinct(ids, i);
        assert(ids.contains(id));
        if exists|k: int| 0 <= k < both.len() && #[trigger] both[k].0 == id {
            let k = choose|k: int| 0 <= k < both.len() && #[trigger] both[k].0 == id;
            assert(both[k] == entry_for(ids, ids, id));
            if k < i {
                if k < i - 1 {
                    assert((both[k].1->0) < (both[i - 1].1->0));
                }
            } else if k > i {
                assert((both[i].1->0) < (both[k].1->0));
            }
        } else {
            assert(ranked(ids, ids, id));
            assert(outranks(both[i], entry_for(ids, ids, id)));
            lemma_same_rank_order(both[i].0, id, r, i as nat);
        }
    }
}

/// When the vector ranking and the keyword ranking are the same list of distinct
/// chunks, the fused ranking keeps the list's order; where `top_k` covers the list, it
/// is the list itself, and its first chunk is the list's first. A keyword ranking
/// alone has that same first chunk, so adding an identical vector ranking does not
/// change which chunk comes first.
pub proof fn law_identical_rankings(
    ids: Seq<Seq<char>>,
    top_k: nat,
    both: Seq<(Seq<char>, Option<nat>, Option<nat>)>,
    keyword_only: Seq<(Seq<char>, Option<nat>, Option<nat>)>,
)
    requires
        distinct(ids),
        fused_ranking(ids, ids, top_k, both),
        fused_ranking(Seq::empty(), ids, top_k, keyword_only),
    ensures
        forall|i: int, j: int| 0 <= i < j < both.len() ==> (both[i].1->0) < (both[j].1->0),
        forall|i: int| 0 <= i < both.len() ==> both[i].1 == both[i].2,
        top_k > 0 && ids.len() > 0 ==> both.len() > 0 && both[0].0 == ids[0],
        top_k > 0 && ids.len() > 0 ==> keyword_only.len() > 0 && keyword_only[0].0 == ids[0],
        top_k > 0 && ids.len() > 0 ==> both[0].0 == keyword_only[0].0,
        top_k >= ids.len() ==> both.len() == ids.len() && forall|i: int| 0 <= i < both.len() ==> #[trigger] both[i].0 == ids[i],
{
    let e: Seq<Seq<char>> = Seq::empty();
    assert forall|i: int| 0 <= i < both.len() implies both[i].1 is Some && both[i].1 == both[i].2 by {
        assert(both[i] == entry_for(ids, ids, both[i].0));
        lemma_rank_in(ids, both[i].0);
    }
    assert forall|i: int, j: int| 0 <= i < j < both.len() implies (both[i].1->0) < (both[j].1->0) by {
        assert(both[i] == entry_for(ids, ids, both[i].0));
        assert(both[j] == entry_for(ids, ids, both[j].0));
        lemma_rank_in(ids, both[i].0);
        lemma_rank_in(ids, both[j].0);
        assert(outranks(both[i], both[j]));
        if both[i].1->0 == both[j].1->0 {
            lemma_lex_irreflexive(both[i].0);
            assert(both[i].0 == both[j].0);
        } else {
            lemma_same_rank_order(both[i].0, both[j].0, both[i].1->0, both[j].1->0);
        }
    }
    if top_k > 0 && ids.len() > 0 {
        let first = ids[0];
        lemma_rank_of_distinct(ids, 0);
        assert(ids.contains(first));
        assert(ranked(ids, ids, first));
        assert(ranked(e, ids, first));
        // in both: the first chunk has rank 0, which nothing goes before
        if !(exists|i: int| 0 <= i < both.len() && #[trigger] both[i].0 == first) {
            assert(both.len() == top_k);
            assert(outranks(both[0], entry_for(ids, ids, first)));
            lemma_rank_in(ids, both[0].0);
            assert(both[0] == entry_for(ids, ids, both[0].0));
            if both[0].0 != first {
                lemma_same_rank_order(both[0].0, first, both[0].1->0, 0);
            } else {
                lemma_lex_irreflexive(first);
            }
        }
        let p = choose|i: int| 0 <= i < both.len() && #[trigger] both[i].0 == first;
        if p > 0 {
            assert(both[p] == entry_for(ids, ids, first));
            assert(outranks(both[0], both[p]));
            lemma_rank_in(ids, both[0].0);
            assert(both[0] == entry_for(ids, ids, both[0].0));
            if both[0].0 != first {
                lemma_same_rank_order(both[0].0, first, both[0].1->0, 0);
            } else {
                lemma_lex_irreflexive(first);
            }
        }
        // keyword alone: the same argument with one source
        assert(rank_in(e, first) is None);
        if !(exists|i: int| 0 <= i < keyword_only.len() && #[trigger] keyword_only[i].0 == first) {
            assert(keyword_only.len() == top_k);
            assert(outranks(keyword_only[0], entry_for(e, ids, first)));
            assert(keyword_only[0] == entry_for(e, ids, keyword_only[0].0));
            lemma_rank_in(e, keyword_only[0].0);
            lemma_rank_in(ids, keyword_only[0].0);
            if keyword_only[0].0 != first {
                lemma_single_rank_order(keyword_only[0].0, first, keyword_only[0].2->0, 0);
            } else {
                lemma_lex_irreflexive(first);
            }
        }
        let q = choose|i: int| 0 <= i < keyword_only.len() && #[trigger] keyword_only[i].0 == first;
        if q > 0 {
            assert(keyword_only[q] == entry_for(e, ids, first));
            assert(outranks(keyword_only[0], keyword_only[q]));
            assert(keyword_only[0] == entry_for(e, ids, keyword_only[0].0));
            lemma_rank_in(e, keyword_only[0].0);
            lemma_rank_in(ids, keyword_only[0].0);
            if keyword_only[0].0 != first {
                lemma_single_rank_order(keyword_only[0].0, first, keyword_only[0].2->0, 0);
            } else {
                lemma_lex_irreflexive(first);
            }
        }
    }
    if top_k >= ids.len() {
        assert forall|j: int| 0 <= j < both.len() implies (#[trigger] both[j]).1 is Some && both[j].1 == both[j].2
            && (both[j].1->0) < ids.len() && ids[both[j].1->0 as int] == both[j].0 by {
            assert(both[j] == entry_for(ids, ids, both[j].0));
            lemma_rank_in(ids, both[j].0);
        }
        assert forall|i: int| 0 <= i < both.len() implies both[i].1 == Some(i as nat) by {
            lemma_identity_ranks(ids, top_k, both, i);
        }
        if both.len() > ids.len() {
            let n = ids.len() as int;
            assert(both[n].1 == Some(n as nat));
        }
        if both.len() < ids.len() {
            let m = both.len() as int;
            let id = ids[m];
            lemma_rank_of_distinct(ids, m);
            assert(ids.contains(id));
            assert(ranked(ids, ids, id));
            if exists|k: int| 0 <= k < both.len() && #[trigger] both[k].0 == id {
                let k = choose|k: int| 0 <= k < both.len() && #[trigger] both[k].0 == id;
                assert(both[k] == entry_for(ids, ids, id));
                assert(both[k].1 == Some(k as nat));
            }
        }
        assert forall|i: int| 0 <= i < both.len() implies #[trigger] both[i].0 == ids[i] by {
            assert(both[i].1 == Some(i as nat));
        }
    }
}

} // verus!
