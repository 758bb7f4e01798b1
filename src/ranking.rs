//! Ordering of similarity scores and selection of the best-scoring rows.
use vstd::prelude::*;

verus! {

/// The order key of a 32-bit float given by its bit pattern: for numbers that are
/// not NaN, a greater float has a greater key (negative zero counts below zero).
pub open spec fn order_key_of(bits: u32) -> u64 {
    if bits >= 0x8000_0000 {
        (0xffff_ffff - bits) as u64
    } else {
        (bits + 0x8000_0000) as u64
    }
}

/// The order key of a signed timestamp: a later time has a greater key.
pub open spec fn time_key_of(t: i64) -> u64 {
    (t - i64::MIN) as u64
}

/// The order key of a timestamp.
pub fn time_order_key(t: i64) -> (r: u64)
    ensures
        r == time_key_of(t),
{
    if t >= 0 {
        (t as u64) + 0x8000_0000_0000_0000
    } else {
        (t - i64::MIN) as u64
    }
}

/// The order key of a float's bit pattern.
pub fn score_order_key(bits: u32) -> (r: u64)
    ensures
        r == order_key_of(bits),
{
    if bits >= 0x8000_0000 {
        (0xffff_ffff - bits) as u64
    } else {
        (bits + 0x8000_0000) as u64
    }
}

/// Whether row `i` goes before row `j`: a greater key, or an equal key and an
/// earlier position.
pub open spec fn ranks_before(keys: Seq<u64>, i: int, j: int) -> bool {
    keys[i] > keys[j] || (keys[i] == keys[j] && i < j)
}

/// The positions of the `top_k` greatest keys, greatest first, equal keys by
/// position: a stable sort, descending, then truncation.
pub fn top_by_key(keys: &Vec<u64>, top_k: usize) -> (r: Vec<usize>)
    ensures
        r@.len() == if top_k < keys@.len() { top_k as int } else { keys@.len() as int },
        forall|a: int| 0 <= a < r@.len() ==> r@[a] < keys@.len(),
        forall|a: int, b: int| 0 <= a < b < r@.len() ==> ranks_before(keys@, r@[a] as int, r@[b] as int),
        forall|j: usize| (j as int) < keys@.len() ==> #[trigger] r@.contains(j) || (forall|a: int|
            0 <= a < r@.len() ==> ranks_before(keys@, #[trigger] r@[a] as int, j as int)),
{
    let n = keys.len();
    let mut taken: Vec<bool> = Vec::new();
    let mut t: usize = 0;
    while t < n
        invariant
            t <= n == keys@.len(),
            taken@.len() == t,
            forall|k: int| 0 <= k < t ==> !taken@[k],
        decreases n - t,
    {
        taken.push(false);
        t += 1;
    }
    let mut out: Vec<usize> = Vec::new();
    while out.len() < top_k && out.len() < n
        invariant
            n == keys@.len(),
            taken@.len() == n,
            out@.len() <= top_k,
            out@.len() <= n,
            forall|a: int| 0 <= a < out@.len() ==> out@[a] < n && taken@[out@[a] as int],
            forall|k: int| 0 <= k < n && taken@[k] ==> out@.contains(k as usize),
            forall|a: int, b: int| 0 <= a < b < out@.len() ==> out@[a] != out@[b],
            forall|a: int, b: int| 0 <= a < b < out@.len() ==> ranks_before(keys@, out@[a] as int, out@[b] as int),
            forall|a: int, k: int| 0 <= a < out@.len() && 0 <= k < n && !#[trigger] taken@[k] ==> ranks_before(keys@, #[trigger] out@[a] as int, k),
        decreases n - out@.len(),
    {
        proof {
            // some position is still free, as fewer than n are taken
            if forall|k: int| 0 <= k < n ==> taken@[k] {
                assert forall|k: usize| (k as int) < n implies #[trigger] out@.contains(k) by {
                    assert(taken@[k as int]);
                }
                lemma_distinct_cover(out@, n as int);
                assert(false);
            }
        }
        let mut best: usize = 0;
        while best < n && taken[best]
            invariant
                best <= n == keys@.len(),
                taken@.len() == n,
                forall|k: int| 0 <= k < best ==> taken@[k],
            decreases n - best,
        {
            best += 1;
        }
        proof {
            if best == n {
                let k = choose|k: int| 0 <= k < n && !taken@[k];
                assert(false);
            }
        }
        let mut q: usize = best + 1;
        while q < n
            invariant
                best < q <= n == keys@.len(),
                taken@.len() == n,
                !taken@[best as int],
                forall|k: int| 0 <= k < q && k != best && !taken@[k] ==> ranks_before(keys@, best as int, k),
            decreases n - q,
        {
            if !taken[q] && keys[q] > keys[best] {
                best = q;
            }
            q += 1;
        }
        let ghost before = out@;
        out.push(best);
        taken.set(best, true);
        proof {
            assert forall|k: int| 0 <= k < n && taken@[k] implies out@.contains(k as usize) by {
                if k == best {
                    assert(out@[before.len() as int] == best);
                } else {
                    let a = choose|a: int| 0 <= a < before.len() && before[a] == k as usize;
                    assert(out@[a] == k as usize);
                }
            }
        }
    }
    proof {
        assert forall|j: usize| (j as int) < keys@.len() implies #[trigger] out@.contains(j) || (forall|a: int|
            0 <= a < out@.len() ==> ranks_before(keys@, #[trigger] out@[a] as int, j as int)) by {
            if taken@[j as int] {
            }
        }
    }
    out
}

/// `m` distinct positions below `n` that cover all of `0 .. n` are at least `n`.
proof fn lemma_distinct_cover(s: Seq<usize>, n: int)
    requires
        0 <= n <= usize::MAX,
        forall|a: int, b: int| 0 <= a < b < s.len() ==> s[a] != s[b],
        forall|k: usize| (k as int) < n ==> #[trigger] s.contains(k),
    ensures
        s.len() >= n,
    decreases n,
{
    if n > 0 {
        assert(s.contains((n - 1) as usize));
        let a = choose|a: int| 0 <= a < s.len() && s[a] == (n - 1) as usize;
        let t = s.remove(a);
        assert forall|x: int, y: int| 0 <= x < y < t.len() implies t[x] != t[y] by {
            let x0 = if x < a { x } else { x + 1 };
            let y0 = if y < a { y } else { y + 1 };
            assert(t[x] == s[x0]);
            assert(t[y] == s[y0]);
        }
        assert forall|k: usize| (k as int) < n - 1 implies #[trigger] t.contains(k) by {
            assert(s.contains(k));
            let b = choose|b: int| 0 <= b < s.len() && s[b] == k;
            assert(b != a);
            let b0 = if b < a { b } else { b - 1 };
            assert(t[b0] == s[b]);
        }
        lemma_distinct_cover(t, n - 1);
    }
}

/// Pairwise different positions below `n` are at most `n`.
pub proof fn lemma_distinct_bound(s: Seq<usize>, n: int)
    requires
        0 <= n,
        forall|a: int, b: int| 0 <= a < b < s.len() ==> s[a] != s[b],
        forall|a: int| 0 <= a < s.len() ==> (s[a] as int) < n,
    ensures
        s.len() <= n,
    decreases n,
{
    if n == 0 {
        if s.len() > 0 {
            assert((s[0] as int) < 0);
        }
    } else if s.contains((n - 1) as usize) {
        let a = choose|a: int| 0 <= a < s.len() && s[a] == (n - 1) as usize;
        let t = s.remove(a);
        assert forall|x: int, y: int| 0 <= x < y < t.len() implies t[x] != t[y] by {
            let x0 = if x < a { x } else { x + 1 };
            let y0 = if y < a { y } else { y + 1 };
            assert(t[x] == s[x0]);
            assert(t[y] == s[y0]);
        }
        assert forall|x: int| 0 <= x < t.len() implies (t[x] as int) < n - 1 by {
            let x0 = if x < a { x } else { x + 1 };
            assert(t[x] == s[x0]);
            if x0 < a {
                assert(s[x0] != s[a]);
            } else {
                assert(s[a] != s[x0]);
            }
        }
        lemma_distinct_bound(t, n - 1);
    } else {
        assert forall|x: int| 0 <= x < s.len() implies (s[x] as int) < n - 1 by {
            if s[x] as int == n - 1 {
                assert(s.contains(s[x]));
            }
        }
        lemma_distinct_bound(s, n - 1);
    }
}

} // verus!
