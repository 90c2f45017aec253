//! Lexicographic order on digit sequences, and the number a digit sequence
//! denotes in a given base: the tools behind the search order.
use vstd::prelude::*;

verus! {

/// `a` and `b` agree on their first `n` digits.
pub open spec fn agree(a: Seq<int>, b: Seq<int>, n: int) -> bool {
    forall|j: int| 0 <= j < n ==> a[j] == b[j]
}

/// `a` and `b` first differ at position `k`, where `a` is smaller.
pub open spec fn lt_at(a: Seq<int>, b: Seq<int>, k: int) -> bool {
    &&& 0 <= k
    &&& k < a.len()
    &&& k < b.len()
    &&& agree(a, b, k)
    &&& a[k] < b[k]
}

/// `a` is lexicographically smaller than `b`, judged on the first `n` digits.
pub open spec fn lex_lt(a: Seq<int>, b: Seq<int>, n: int) -> bool {
    exists|k: int| k < n && #[trigger] lt_at(a, b, k)
}

/// Every digit lies in `0..base`.
pub open spec fn digits_below(a: Seq<int>, base: int) -> bool {
    forall|j: int| 0 <= j < a.len() ==> 0 <= #[trigger] a[j] < base
}

/// `base` to the power `n`.
pub open spec fn weight(base: int, n: nat) -> int
    decreases n,
{
    if n == 0 {
        1
    } else {
        base * weight(base, (n - 1) as nat)
    }
}

/// The number that the digits denote in `base`, most significant first.
pub open spec fn rank(a: Seq<int>, base: int) -> int
    decreases a.len(),
{
    if a.len() == 0 {
        0
    } else {
        rank(a.drop_last(), base) * base + a.last()
    }
}

pub proof fn lemma_lex_lt_asymmetric(a: Seq<int>, b: Seq<int>, n: int, m: int)
    requires
        lex_lt(a, b, n),
    ensures
        !lex_lt(b, a, m),
{
    let k = choose|k: int| k < n && #[trigger] lt_at(a, b, k);
    if lex_lt(b, a, m) {
        let k2 = choose|k2: int| k2 < m && #[trigger] lt_at(b, a, k2);
        if k < k2 {
            assert(b[k] == a[k]);
        } else if k2 < k {
            assert(a[k2] == b[k2]);
        }
    }
}

pub proof fn lemma_lex_lt_extend(a: Seq<int>, b: Seq<int>, n: int, m: int)
    requires
        lex_lt(a, b, n),
        n <= m,
    ensures
        lex_lt(a, b, m),
{
    let k = choose|k: int| k < n && #[trigger] lt_at(a, b, k);
    assert(k < m && lt_at(a, b, k));
}

/// Two digit sequences compare one way, the other, or agree.
pub proof fn lemma_lex_trichotomy(a: Seq<int>, b: Seq<int>, n: int)
    requires
        0 <= n <= a.len(),
        n <= b.len(),
    ensures
        lex_lt(a, b, n) || lex_lt(b, a, n) || agree(a, b, n),
    decreases n,
{
    if n > 0 {
        lemma_lex_trichotomy(a, b, n - 1);
        if lex_lt(a, b, n - 1) {
            lemma_lex_lt_extend(a, b, n - 1, n);
        } else if lex_lt(b, a, n - 1) {
            lemma_lex_lt_extend(b, a, n - 1, n);
        } else if a[n - 1] < b[n - 1] {
            assert(lt_at(a, b, n - 1));
        } else if b[n - 1] < a[n - 1] {
            assert(lt_at(b, a, n - 1));
        }
    }
}

/// A sequence that is not below `c` on `n` digits, where `c` continues with
/// zeros, is not below `c` on more digits.
pub proof fn lemma_not_lt_zero_tail(w: Seq<int>, c: Seq<int>, n: int, m: int)
    requires
        !lex_lt(w, c, n),
        forall|j: int| n <= j < m ==> c[j] == 0,
        forall|j: int| 0 <= j < w.len() ==> w[j] >= 0,
    ensures
        !lex_lt(w, c, m),
{
    if lex_lt(w, c, m) {
        let k = choose|k: int| k < m && #[trigger] lt_at(w, c, k);
        if k < n {
            assert(lex_lt(w, c, n));
        }
    }
}

/// Raising the digit of `c` at `p` by one, keeping the earlier ones, gives a
/// sequence `c2` above `c` that no sequence above `c` (on `p + 1` digits) is
/// below.
pub proof fn lemma_lex_bump(c: Seq<int>, c2: Seq<int>, w: Seq<int>, p: int)
    requires
        lex_lt(c, w, p + 1),
        0 <= p < c2.len(),
        p < c.len(),
        agree(c, c2, p),
        c2[p] == c[p] + 1,
    ensures
        !lex_lt(w, c2, p + 1),
        lex_lt(c, c2, p + 1),
{
    assert(lt_at(c, c2, p));
    let k = choose|k: int| k < p + 1 && #[trigger] lt_at(c, w, k);
    if k < p {
        assert(agree(c2, w, k)) by {
            assert forall|j: int| 0 <= j < k implies c2[j] == w[j] by {
                assert(c[j] == c2[j]);
                assert(c[j] == w[j]);
            }
        }
        assert(lt_at(c2, w, k));
        lemma_lex_lt_asymmetric(c2, w, p + 1, p + 1);
    } else {
        if lex_lt(w, c2, p + 1) {
            let k2 = choose|k2: int| k2 < p + 1 && #[trigger] lt_at(w, c2, k2);
            if k2 < p {
                assert(w[k2] == c[k2]);
                assert(c[k2] == c2[k2]);
            }
        }
    }
}

pub proof fn lemma_weight_positive(base: int, n: nat)
    requires
        base >= 1,
    ensures
        weight(base, n) >= 1,
    decreases n,
{
    if n > 0 {
        lemma_weight_positive(base, (n - 1) as nat);
        assert(base * weight(base, (n - 1) as nat) >= 1) by (nonlinear_arith)
            requires
                base >= 1,
                weight(base, (n - 1) as nat) >= 1,
        ;
    }
}

/// Powers of a base of at least one grow with the exponent.
pub proof fn lemma_weight_monotone(base: int, n: nat, m: nat)
    requires
        base >= 1,
        n <= m,
    ensures
        weight(base, n) <= weight(base, m),
    decreases m,
{
    if n < m {
        lemma_weight_monotone(base, n, (m - 1) as nat);
        lemma_weight_positive(base, (m - 1) as nat);
        let w = weight(base, (m - 1) as nat);
        assert(w <= base * w) by (nonlinear_arith)
            requires
                base >= 1,
                w >= 1,
        ;
    }
}

/// Digits below `base` denote a number in `0..base^len`.
pub proof fn lemma_rank_bounds(a: Seq<int>, base: int)
    requires
        base >= 1,
        digits_below(a, base),
    ensures
        0 <= rank(a, base) < weight(base, a.len()),
    decreases a.len(),
{
    if a.len() > 0 {
        let p = a.drop_last();
        assert(digits_below(p, base)) by {
            assert forall|j: int| 0 <= j < p.len() implies 0 <= #[trigger] p[j] < base by {
                assert(p[j] == a[j]);
            }
        }
        lemma_rank_bounds(p, base);
        let r = rank(p, base);
        let w = weight(base, p.len());
        let d = a.last();
        assert(0 <= d < base);
        assert(0 <= r * base + d < base * w) by (nonlinear_arith)
            requires
                0 <= r < w,
                0 <= d < base,
        ;
        assert(a.len() - 1 == p.len());
    }
}

/// Lexicographic order on equally long digit sequences is the order of the
/// numbers they denote.
pub proof fn lemma_rank_monotone(a: Seq<int>, b: Seq<int>, base: int)
    requires
        base >= 1,
        a.len() == b.len(),
        digits_below(a, base),
        digits_below(b, base),
        lex_lt(a, b, a.len() as int),
    ensures
        rank(a, base) < rank(b, base),
    decreases a.len(),
{
    let n = a.len() as int;
    let pa = a.drop_last();
    let pb = b.drop_last();
    let k = choose|k: int| k < n && #[trigger] lt_at(a, b, k);
    assert(digits_below(pa, base)) by {
        assert forall|j: int| 0 <= j < pa.len() implies 0 <= #[trigger] pa[j] < base by {
            assert(pa[j] == a[j]);
        }
    }
    assert(digits_below(pb, base)) by {
        assert forall|j: int| 0 <= j < pb.len() implies 0 <= #[trigger] pb[j] < base by {
            assert(pb[j] == b[j]);
        }
    }
    if k == n - 1 {
        assert(pa =~= pb) by {
            assert forall|j: int| 0 <= j < pa.len() implies pa[j] == pb[j] by {
                assert(a[j] == b[j]);
            }
        }
    } else {
        assert(lt_at(pa, pb, k)) by {
            assert forall|j: int| 0 <= j < k implies pa[j] == pb[j] by {
                assert(a[j] == b[j]);
            }
        }
        lemma_rank_monotone(pa, pb, base);
        lemma_rank_bounds(pa, base);
        let ra = rank(pa, base);
        let rb = rank(pb, base);
        let da = a.last();
        let db = b.last();
        assert(0 <= da < base && 0 <= db < base);
        assert(ra * base + da < rb * base + db) by (nonlinear_arith)
            requires
                ra < rb,
                0 <= da < base,
                0 <= db,
        ;
    }
}

/// Whether `w` is below a sequence on `n` digits depends on those digits only.
pub proof fn lemma_not_lt_congruent(w: Seq<int>, a: Seq<int>, b: Seq<int>, n: int)
    requires
        !lex_lt(w, a, n),
        agree(a, b, n),
        n <= a.len(),
    ensures
        !lex_lt(w, b, n),
{
    if lex_lt(w, b, n) {
        let k = choose|k: int| k < n && #[trigger] lt_at(w, b, k);
        assert(lt_at(w, a, k));
    }
}

/// If `b` is above `a` on `n` digits and `c` first rises above `b` at `p`,
/// then `c` is above `a` on `n` digits.
pub proof fn lemma_lex_lt_then_lt_at(a: Seq<int>, b: Seq<int>, c: Seq<int>, n: int, p: int)
    requires
        lex_lt(a, b, n),
        lt_at(b, c, p),
    ensures
        lex_lt(a, c, n),
{
    let k = choose|k: int| k < n && #[trigger] lt_at(a, b, k);
    if p < k {
        assert(lt_at(a, c, p));
    } else {
        assert(lt_at(a, c, k));
    }
}

} // verus!
