//! The search over chains of layers: a chain is a `count` vector whose
//! entry `i` is `[layer index, position in the row of the layer before]`,
//! and the chains are visited as an odometer whose digit `0` is the first
//! layer and whose digit `i > 0` is a position in a row of the pair table.
use vstd::prelude::*;
use crate::constants::{TARGET, identity_table, is_signal_table};
use crate::layer::{compose, compose_all, through};
use crate::legality::{
    is_legality_table, is_target_legality, legal, lemma_legal_after_layer, lemma_target_legal,
    lemma_target_legality_is_table, spec_legal,
};
use crate::order::{
    agree, digits_below, lemma_lex_bump, lemma_lex_lt_extend, lemma_lex_lt_then_lt_at, lemma_lex_trichotomy,
    lemma_not_lt_congruent, lemma_not_lt_zero_tail, lemma_rank_bounds, lemma_rank_monotone, lex_lt, lt_at, rank, weight,
};

verus! {

/// The pair table as plain sequences.
pub open spec fn rows_view(pairs: &Vec<Vec<[usize; 2]>>) -> Seq<Seq<[usize; 2]>> {
    Seq::new(pairs@.len(), |u: int| pairs@[u]@)
}

/// Row `u` lists the layers that may follow layer `u`: each entry names a
/// layer below `mcount` and its own position in the row.
pub open spec fn pairs_wf(ps: Seq<Seq<[usize; 2]>>, mcount: int) -> bool {
    &&& ps.len() == mcount
    &&& forall|u: int, k: int|
        0 <= u < ps.len() && 0 <= k < ps[u].len() ==> (#[trigger] ps[u][k])[1] == k && ps[u][k][0]
            < mcount
}

/// Digit `i` of a chain: the first layer itself, then positions in rows.
pub open spec fn digit_of(c: Seq<[usize; 2]>, i: int) -> int {
    if i == 0 {
        c[0][0] as int
    } else {
        c[i][1] as int
    }
}

pub open spec fn digits(c: Seq<[usize; 2]>) -> Seq<int> {
    Seq::new(c.len(), |i: int| digit_of(c, i))
}

/// Entry `i` is the entry of row `c[i - 1][0]` at position `c[i][1]`.
pub open spec fn link_ok(c: Seq<[usize; 2]>, ps: Seq<Seq<[usize; 2]>>, i: int) -> bool {
    &&& c[i - 1][0] < ps.len()
    &&& c[i][1] < ps[c[i - 1][0] as int].len()
    &&& c[i] == ps[c[i - 1][0] as int][c[i][1] as int]
}

/// The first `n` entries of `c` form a chain of the pair table.
pub open spec fn valid_prefix(c: Seq<[usize; 2]>, ps: Seq<Seq<[usize; 2]>>, mcount: int, n: int) -> bool {
    &&& 0 <= n <= c.len()
    &&& n > 0 ==> c[0][0] < mcount && c[0][1] == c[0][0]
    &&& forall|i: int| 1 <= i < n ==> #[trigger] link_ok(c, ps, i)
}

/// `c` is a whole chain of the pair table.
pub open spec fn valid_chain(c: Seq<[usize; 2]>, ps: Seq<Seq<[usize; 2]>>, mcount: int) -> bool {
    &&& c.len() >= 1
    &&& valid_prefix(c, ps, mcount, c.len() as int)
}

/// The length of the longest row.
pub open spec fn longest_row(ps: Seq<Seq<[usize; 2]>>) -> nat
    decreases ps.len(),
{
    if ps.len() == 0 {
        0
    } else {
        let r = longest_row(ps.drop_last());
        if ps.last().len() > r {
            ps.last().len()
        } else {
            r
        }
    }
}

/// A base above every digit a chain can hold.
pub open spec fn digit_base(ps: Seq<Seq<[usize; 2]>>, mcount: int) -> int {
    longest_row(ps) + mcount + 1
}

/// Every entry names a layer below `mcount` and a position below the base.
pub open spec fn entries_bounded(c: Seq<[usize; 2]>, ps: Seq<Seq<[usize; 2]>>, mcount: int) -> bool {
    forall|i: int|
        0 <= i < c.len() ==> (#[trigger] c[i])[0] < mcount && c[i][1] < digit_base(ps, mcount)
}

/// `w` comes after the chain `c` when the digits from `p` on are free:
/// it is longer, or as long and above `c` on the first `p + 1` digits.
pub open spec fn beyond(w: Seq<[usize; 2]>, c: Seq<[usize; 2]>, p: int) -> bool {
    ||| w.len() > c.len()
    ||| w.len() == c.len() && lex_lt(digits(c), digits(w), p + 1)
}

/// The search order: shorter chains first, then lexicographic on digits.
pub open spec fn precedes(w: Seq<[usize; 2]>, v: Seq<[usize; 2]>) -> bool {
    ||| w.len() < v.len()
    ||| w.len() == v.len() && lex_lt(digits(w), digits(v), w.len() as int)
}

/// The search only visits lengths `len0`, `len0 + 2`, `len0 + 4`, ...
pub open spec fn same_parity(n: int, len0: int) -> bool {
    n >= len0 && (n - len0) % 2 == 0
}

pub proof fn lemma_longest_row(ps: Seq<Seq<[usize; 2]>>)
    ensures
        forall|u: int| 0 <= u < ps.len() ==> #[trigger] ps[u].len() <= longest_row(ps),
    decreases ps.len(),
{
    if ps.len() > 0 {
        let p = ps.drop_last();
        lemma_longest_row(p);
        assert forall|u: int| 0 <= u < ps.len() implies #[trigger] ps[u].len() <= longest_row(ps) by {
            if u < ps.len() - 1 {
                assert(ps[u] == p[u]);
            }
        }
    }
}

pub proof fn lemma_digits_below(c: Seq<[usize; 2]>, ps: Seq<Seq<[usize; 2]>>, mcount: int)
    requires
        entries_bounded(c, ps, mcount),
        mcount >= 1,
    ensures
        digits_below(digits(c), digit_base(ps, mcount)),
{
    assert forall|j: int| 0 <= j < digits(c).len() implies 0 <= #[trigger] digits(c)[j] < digit_base(
        ps,
        mcount,
    ) by {
        assert(c[j][0] < mcount);
    }
}

/// Two chains with the same first `n` digits have the same first `n` entries.
pub proof fn lemma_entries_agree(
    c: Seq<[usize; 2]>,
    w: Seq<[usize; 2]>,
    ps: Seq<Seq<[usize; 2]>>,
    mcount: int,
    n: int,
)
    requires
        valid_prefix(c, ps, mcount, n),
        valid_prefix(w, ps, mcount, n),
        agree(digits(c), digits(w), n),
    ensures
        forall|j: int| 0 <= j < n ==> #[trigger] c[j] == w[j],
    decreases n,
{
    if n > 0 {
        lemma_entries_agree(c, w, ps, mcount, n - 1);
        let j = n - 1;
        assert(digits(c)[j] == digits(w)[j]);
        if j == 0 {
            assert(c[0] =~= w[0]);
        } else {
            assert(link_ok(c, ps, j));
            assert(link_ok(w, ps, j));
            assert(c[j - 1] == w[j - 1]);
        }
    }
}

/// No chain continues past an entry whose row is empty.
pub proof fn lemma_empty_row_blocks(
    c: Seq<[usize; 2]>,
    w: Seq<[usize; 2]>,
    ps: Seq<Seq<[usize; 2]>>,
    mcount: int,
    p: int,
)
    requires
        0 <= p,
        p + 1 < w.len(),
        p < c.len(),
        valid_prefix(c, ps, mcount, p + 1),
        valid_chain(w, ps, mcount),
        c[p][0] < ps.len(),
        ps[c[p][0] as int].len() == 0,
    ensures
        !agree(digits(c), digits(w), p + 1),
{
    if agree(digits(c), digits(w), p + 1) {
        lemma_entries_agree(c, w, ps, mcount, p + 1);
        assert(link_ok(w, ps, p + 1));
        assert(c[p] == w[p]);
    }
}

/// Moves the odometer to its next digit value at or before position
/// `change`: digits that are at the end of their row are passed over; when
/// the first layer is exhausted the chain grows by two layers and restarts
/// from layer `0`.
#[verifier::loop_isolation(false)]
fn bump(
    count: Vec<[usize; 2]>,
    change: usize,
    last: usize,
    mcount: usize,
    depth: usize,
    pairs: &Vec<Vec<[usize; 2]>>,
) -> (res: (Vec<[usize; 2]>, usize, usize, usize))
    requires
        pairs_wf(rows_view(pairs), mcount as int),
        mcount >= 1,
        valid_prefix(count@, rows_view(pairs), mcount as int, change + 1),
        entries_bounded(count@, rows_view(pairs), mcount as int),
        depth == count.len(),
        last + 1 == depth,
        change <= last,
    ensures
        ({
            let (c2, ch2, l2, d2) = res;
            let ps = rows_view(pairs);
            &&& d2 == c2.len()
            &&& l2 + 1 == d2
            &&& ch2 <= l2
            &&& entries_bounded(c2@, ps, mcount as int)
            &&& valid_prefix(c2@, ps, mcount as int, ch2 + 1)
            &&& d2 == depth ==> {
                &&& ch2 <= change
                &&& forall|j: int| 0 <= j < ch2 ==> #[trigger] c2@[j] == count@[j]
                &&& lt_at(digits(count@), digits(c2@), ch2 as int)
                &&& forall|w: Seq<[usize; 2]>|
                    valid_chain(w, ps, mcount as int) && w.len() == depth && lex_lt(
                        digits(count@),
                        digits(w),
                        change + 1,
                    ) ==> !#[trigger] lex_lt(digits(w), digits(c2@), ch2 + 1)
            }
            &&& d2 != depth ==> {
                &&& d2 == depth + 2
                &&& ch2 == 0
                &&& c2@[0][0] == 0
                &&& forall|w: Seq<[usize; 2]>|
                    valid_chain(w, ps, mcount as int) && w.len() == depth ==> !#[trigger] lex_lt(
                        digits(count@),
                        digits(w),
                        change + 1,
                    )
            }
        }),
{
    let ghost ps = rows_view(pairs);
    let ghost c0 = count@;
    let ghost ch0 = change as int;
    let mut count = count;
    let mut change = change;
    let mut last = last;
    let mut depth = depth;
    proof {
        lemma_longest_row(ps);
    }
    loop
        invariant
            pairs_wf(ps, mcount as int),
            ps == rows_view(pairs),
            mcount >= 1,
            forall|u: int| 0 <= u < ps.len() ==> #[trigger] ps[u].len() <= longest_row(ps),
            count@ == c0,
            entries_bounded(c0, ps, mcount as int),
            depth == count.len(),
            last + 1 == depth,
            change <= ch0,
            ch0 <= last,
            valid_prefix(c0, ps, mcount as int, ch0 + 1),
            forall|w: Seq<[usize; 2]>|
                valid_chain(w, ps, mcount as int) && w.len() == depth && lex_lt(
                    digits(c0),
                    digits(w),
                    ch0 + 1,
                ) ==> #[trigger] lex_lt(digits(c0), digits(w), change + 1),
        decreases change,
    {
        if change == 0 {
            if count[0][0] == mcount - 1 {
                proof {
                    assert forall|w: Seq<[usize; 2]>|
                        valid_chain(w, ps, mcount as int) && w.len() == depth implies !#[trigger] lex_lt(
                            digits(c0),
                            digits(w),
                            ch0 + 1,
                        ) by {
                        if lex_lt(digits(c0), digits(w), ch0 + 1) {
                            assert(lex_lt(digits(c0), digits(w), change + 1));
                            let k = choose|k: int| k < 1 && #[trigger] lt_at(digits(c0), digits(w), k);
                            assert(k == 0);
                            assert(digits(w)[0] == w[0][0]);
                        }
                    }
                }
                count[0] = [0, 0];
                count.push([0, 0]);
                count.push([0, 0]);
                assert(count@.len() == count.len());
                depth += 2;
                last += 2;
                proof {
                    assert(count@[0][0] == 0 && count@[0][1] == 0);
                    assert forall|i: int| 0 <= i < count@.len() implies (#[trigger] count@[i])[0]
                        < mcount && count@[i][1] < digit_base(ps, mcount as int) by {
                        if 0 < i < c0.len() {
                            assert(count@[i] == c0[i]);
                        }
                    }
                    assert(forall|i: int| 1 <= i < 1 ==> #[trigger] link_ok(count@, ps, i));
                    assert(valid_prefix(count@, ps, mcount as int, 1));
                }
                return (count, change, last, depth);
            } else {
                let first = count[0][0] + 1;
                count[0] = [first, first];
                proof {
                    let d0 = digits(c0);
                    let d2 = digits(count@);
                    assert(d2[0] == d0[0] + 1);
                    assert(lt_at(d0, d2, 0));
                    assert forall|w: Seq<[usize; 2]>|
                        valid_chain(w, ps, mcount as int) && w.len() == depth && lex_lt(
                            digits(c0),
                            digits(w),
                            ch0 + 1,
                        ) implies !#[trigger] lex_lt(digits(w), digits(count@), 1) by {
                        assert(lex_lt(d0, digits(w), change + 1));
                        lemma_lex_bump(d0, d2, digits(w), 0);
                    }
                    assert(forall|i: int| 1 <= i < 1 ==> #[trigger] link_ok(count@, ps, i));
                }
                return (count, change, last, depth);
            }
        } else {
            let row = count[change - 1][0];
            let row_len = pairs[row].len();
            proof {
                assert(link_ok(c0, ps, change as int));
            }
            if count[change][1] + 1 == row_len {
                proof {
                    assert forall|w: Seq<[usize; 2]>|
                        valid_chain(w, ps, mcount as int) && w.len() == depth && lex_lt(
                            digits(c0),
                            digits(w),
                            ch0 + 1,
                        ) implies #[trigger] lex_lt(digits(c0), digits(w), change as int) by {
                        assert(lex_lt(digits(c0), digits(w), change + 1));
                        let k = choose|k: int|
                            k < change + 1 && #[trigger] lt_at(digits(c0), digits(w), k);
                        if k == change {
                            lemma_entries_agree(c0, w, ps, mcount as int, change as int);
                            assert(link_ok(w, ps, change as int));
                            assert(w[change - 1] == c0[change - 1]);
                            assert(digits(w)[k] == w[k][1]);
                        } else {
                            assert(k < change && lt_at(digits(c0), digits(w), k));
                        }
                    }
                }
                change -= 1;
            } else {
                let next_pos = count[change][1] + 1;
                let entry = pairs[row][next_pos];
                count[change] = entry;
                proof {
                    let d0 = digits(c0);
                    let d2 = digits(count@);
                    assert(ps[row as int][next_pos as int] == entry);
                    assert(entry[1] == next_pos);
                    assert(agree(d0, d2, change as int)) by {
                        assert forall|j: int| 0 <= j < change implies d0[j] == d2[j] by {
                            assert(count@[j] == c0[j]);
                        }
                    }
                    assert(d2[change as int] == d0[change as int] + 1);
                    assert(lt_at(d0, d2, change as int));
                    assert forall|w: Seq<[usize; 2]>|
                        valid_chain(w, ps, mcount as int) && w.len() == depth && lex_lt(
                            digits(c0),
                            digits(w),
                            ch0 + 1,
                        ) implies !#[trigger] lex_lt(digits(w), digits(count@), change + 1) by {
                        lemma_lex_bump(d0, d2, digits(w), change as int);
                    }
                    assert(link_ok(count@, ps, change as int));
                    assert forall|i: int| 1 <= i < change + 1 implies #[trigger] link_ok(
                        count@,
                        ps,
                        i,
                    ) by {
                        if i < change {
                            assert(link_ok(c0, ps, i));
                        }
                    }
                    assert(ps[row as int].len() <= longest_row(ps));
                }
                return (count, change, last, depth);
            }
        }
    }
}

/// Sets every entry after `change` to the first entry of its row. It stops at
/// the first empty row: `zero` is then set and `change` names the entry
/// whose row is empty.
fn fill(
    count: Vec<[usize; 2]>,
    change: usize,
    last: usize,
    mcount: usize,
    pairs: &Vec<Vec<[usize; 2]>>,
) -> (res: (Vec<[usize; 2]>, usize, bool))
    requires
        pairs_wf(rows_view(pairs), mcount as int),
        mcount >= 1,
        valid_prefix(count@, rows_view(pairs), mcount as int, change + 1),
        entries_bounded(count@, rows_view(pairs), mcount as int),
        last + 1 == count.len(),
        change <= last,
    ensures
        ({
            let (c2, ch2, zero) = res;
            let ps = rows_view(pairs);
            &&& c2.len() == count.len()
            &&& entries_bounded(c2@, ps, mcount as int)
            &&& forall|j: int| 0 <= j <= change ==> #[trigger] c2@[j] == count@[j]
            &&& forall|j: int|
                change < j < c2.len() && (!zero || j <= ch2) ==> #[trigger] digits(c2@)[j] == 0
            &&& !zero ==> ch2 == change && valid_chain(c2@, ps, mcount as int)
            &&& zero ==> {
                &&& change <= ch2 < last
                &&& valid_prefix(c2@, ps, mcount as int, ch2 + 1)
                &&& c2@[ch2 as int][0] < ps.len()
                &&& ps[c2@[ch2 as int][0] as int].len() == 0
            }
        }),
{
    let ghost ps = rows_view(pairs);
    let ghost c0 = count@;
    let mut count = count;
    let mut change = change;
    let mut zero = false;
    let start = change + 1;
    let mut i = start;
    proof {
        lemma_longest_row(ps);
    }
    while i < last + 1
        invariant_except_break
            !zero,
            change + 1 == start,
        invariant
            pairs_wf(ps, mcount as int),
            ps == rows_view(pairs),
            mcount >= 1,
            forall|u: int| 0 <= u < ps.len() ==> #[trigger] ps[u].len() <= longest_row(ps),
            start <= i <= last + 1,
            count.len() == last + 1,
            valid_prefix(count@, ps, mcount as int, i as int),
            entries_bounded(count@, ps, mcount as int),
            forall|j: int| 0 <= j < start ==> #[trigger] count@[j] == c0[j],
            forall|j: int| start <= j < i ==> #[trigger] digits(count@)[j] == 0,
        ensures
            !zero ==> i == last + 1 && change + 1 == start,
            zero ==> {
                &&& change + 1 == i
                &&& i <= last
                &&& count@[change as int][0] < ps.len()
                &&& ps[count@[change as int][0] as int].len() == 0
            },
        decreases last + 1 - i,
    {
        let row = count[i - 1][0];
        if pairs[row].len() == 0 {
            zero = true;
            change = i - 1;
            break;
        }
        let entry = pairs[row][0];
        let ghost prev = count@;
        count[i] = entry;
        proof {
            assert(ps[row as int][0] == entry);
            assert(entry[1] == 0);
            assert(ps[row as int].len() <= longest_row(ps));
            assert forall|j: int| start <= j < i + 1 implies #[trigger] digits(count@)[j] == 0 by {
                if j < i {
                    assert(digits(prev)[j] == 0);
                    assert(count@[j] == prev[j]);
                }
            }
            assert(link_ok(count@, ps, i as int));
            assert forall|k: int| 1 <= k < i + 1 implies #[trigger] link_ok(count@, ps, k) by {
                if k < i {
                    assert(link_ok(prev, ps, k));
                    assert(count@[k] == prev[k] && count@[k - 1] == prev[k - 1]);
                }
            }
        }
        i += 1;
    }
    (count, change, zero)
}

/// `w` is a chain the search may still visit after the chain `c0` with
/// digits from `change0` on free.
pub open spec fn candidate(
    w: Seq<[usize; 2]>,
    c0: Seq<[usize; 2]>,
    change0: int,
    ps: Seq<Seq<[usize; 2]>>,
    mcount: int,
) -> bool {
    &&& valid_chain(w, ps, mcount)
    &&& same_parity(w.len() as int, c0.len() as int)
    &&& beyond(w, c0, change0)
}

pub proof fn lemma_chain_bounded(c: Seq<[usize; 2]>, ps: Seq<Seq<[usize; 2]>>, mcount: int)
    requires
        pairs_wf(ps, mcount),
        valid_chain(c, ps, mcount),
    ensures
        entries_bounded(c, ps, mcount),
{
    lemma_longest_row(ps);
    assert forall|i: int| 0 <= i < c.len() implies (#[trigger] c[i])[0] < mcount && c[i][1]
        < digit_base(ps, mcount) by {
        if i > 0 {
            assert(link_ok(c, ps, i));
            let r = c[i - 1][0] as int;
            assert(ps[r][c[i][1] as int][0] < mcount);
            assert(ps[r].len() <= longest_row(ps));
        }
    }
}

/// Advances the chain to the next one in the search order that is a whole
/// chain of the pair table, moving the digit at `change` or an earlier one.
/// When no chain of the current length is left, the chain grows by two.
/// Returns the new chain, the position of the last digit moved (when every
/// row of the table has an entry, no earlier entry changed), the last
/// position and the length.
#[verifier::loop_isolation(false)]
pub fn iter8(
    count: Vec<[usize; 2]>,
    change: usize,
    last: usize,
    mcount: usize,
    depth: usize,
    pairs: &Vec<Vec<[usize; 2]>>,
) -> (res: (Vec<[usize; 2]>, usize, usize, usize))
    requires
        pairs_wf(rows_view(pairs), mcount as int),
        mcount >= 1,
        valid_chain(count@, rows_view(pairs), mcount as int),
        depth == count.len(),
        last + 1 == depth,
        change <= last,
    ensures
        ({
            let (c2, ch2, l2, d2) = res;
            let ps = rows_view(pairs);
            &&& valid_chain(c2@, ps, mcount as int)
            &&& d2 == c2.len()
            &&& l2 + 1 == d2
            &&& ch2 <= l2
            &&& same_parity(d2 as int, depth as int)
            &&& beyond(c2@, count@, change as int)
            &&& forall|w: Seq<[usize; 2]>|
                candidate(w, count@, change as int, ps, mcount as int) ==> !#[trigger] precedes(
                    w,
                    c2@,
                )
            &&& d2 == depth ==> {
                &&& ch2 <= change
                &&& forall|j: int| 0 <= j < ch2 ==> #[trigger] c2@[j] == count@[j]
                &&& lt_at(digits(count@), digits(c2@), ch2 as int)
            }
            &&& d2 != depth ==> ch2 == 0
        }),
{
    let ghost ps = rows_view(pairs);
    let ghost c0 = count@;
    let ghost ch0 = change as int;
    let ghost len0 = depth as int;
    let ghost base = digit_base(ps, mcount as int);
    let ghost mut first = true;
    let mut count = count;
    let mut change = change;
    let mut last = last;
    let mut depth = depth;
    let mut lowest = change;
    proof {
        lemma_chain_bounded(c0, ps, mcount as int);
        lemma_digits_below(c0, ps, mcount as int);
        lemma_rank_bounds(digits(c0), base);
    }
    loop
        invariant
            pairs_wf(ps, mcount as int),
            ps == rows_view(pairs),
            mcount >= 1,
            base == digit_base(ps, mcount as int),
            depth == count.len(),
            last + 1 == depth,
            change <= last,
            valid_prefix(count@, ps, mcount as int, change + 1),
            entries_bounded(count@, ps, mcount as int),
            0 <= rank(digits(count@), base) < weight(base, count.len() as nat),
            same_parity(depth as int, len0),
            first ==> count@ == c0 && change == ch0 && lowest == ch0,
            !first ==> depth > len0 || lex_lt(digits(c0), digits(count@), ch0 + 1),
            lowest <= ch0,
            depth == len0 ==> forall|j: int| 0 <= j < lowest ==> #[trigger] count@[j] == c0[j],
            !first && depth == len0 ==> lt_at(digits(c0), digits(count@), lowest as int),
            depth != len0 ==> lowest == 0,
            forall|w: Seq<[usize; 2]>|
                #[trigger] candidate(w, c0, ch0, ps, mcount as int) ==> w.len() > depth || (
                w.len() == depth && lex_lt(digits(count@), digits(w), change + 1)),
        decreases usize::MAX - count.len(), weight(base, count.len() as nat) - rank(
            digits(count@),
            base,
        ),
    {
        let ghost co = count@;
        let ghost cho = change as int;
        let ghost dpo = depth as int;
        let (c1, ch1, l1, d1) = bump(count, change, last, mcount, depth, pairs);
        let ghost g1 = c1@;
        let (c2, ch2, zero) = fill(c1, ch1, l1, mcount, pairs);
        proof {
            let dc1 = digits(g1);
            let dc2 = digits(c2@);
            assert(agree(dc1, dc2, ch1 + 1)) by {
                assert forall|j: int| 0 <= j < ch1 + 1 implies dc1[j] == dc2[j] by {
                    assert(c2@[j] == g1[j]);
                }
            }
            // Every chain still to visit is not below the new chain.
            assert forall|w: Seq<[usize; 2]>| #[trigger]
                candidate(w, c0, ch0, ps, mcount as int) implies w.len() > d1 || (w.len() == d1
                && !lex_lt(digits(w), dc2, ch2 + 1) && (!zero ==> !lex_lt(
                digits(w),
                dc2,
                d1 as int,
            ))) by {
                let dw = digits(w);
                assert forall|j: int| 0 <= j < dw.len() implies dw[j] >= 0 by {}
                if w.len() <= d1 {
                    if d1 == dpo {
                        assert(w.len() == dpo && lex_lt(digits(co), dw, cho + 1));
                        assert(valid_chain(w, ps, mcount as int));
                        assert(!lex_lt(dw, dc1, ch1 + 1));
                    } else {
                        assert(w.len() == d1);
                        assert(dc1[0] == 0);
                        lemma_not_lt_zero_tail(dw, dc1, 0, 1);
                    }
                    lemma_not_lt_congruent(dw, dc1, dc2, ch1 + 1);
                    lemma_not_lt_zero_tail(dw, dc2, ch1 + 1, ch2 + 1);
                    if !zero {
                        lemma_not_lt_zero_tail(dw, dc2, ch1 + 1, d1 as int);
                    }
                }
            }
            if d1 == dpo {
                assert(lt_at(digits(co), dc2, ch1 as int)) by {
                    assert(lt_at(digits(co), dc1, ch1 as int));
                    assert forall|j: int| 0 <= j < ch1 implies digits(co)[j] == dc2[j] by {
                        assert(digits(co)[j] == dc1[j]);
                    }
                }
                if first {
                    assert(lex_lt(digits(c0), dc2, ch0 + 1));
                } else if dpo == len0 {
                    lemma_lex_lt_then_lt_at(digits(c0), digits(co), dc2, ch0 + 1, ch1 as int);
                }
                lemma_lex_lt_extend(digits(co), dc2, ch1 + 1, d1 as int);
                lemma_digits_below(co, ps, mcount as int);
                lemma_digits_below(c2@, ps, mcount as int);
                lemma_rank_monotone(digits(co), dc2, base);
            }
            lemma_digits_below(c2@, ps, mcount as int);
            lemma_rank_bounds(dc2, base);
            if zero {
                assert forall|w: Seq<[usize; 2]>| #[trigger]
                    candidate(w, c0, ch0, ps, mcount as int) implies w.len() > d1 || (w.len() == d1
                    && lex_lt(dc2, digits(w), ch2 + 1)) by {
                    if w.len() == d1 {
                        let dw = digits(w);
                        assert(!lex_lt(dw, dc2, ch2 + 1));
                        lemma_lex_trichotomy(dw, dc2, ch2 + 1);
                        if agree(dw, dc2, ch2 + 1) {
                            assert(agree(dc2, dw, ch2 + 1));
                            lemma_empty_row_blocks(c2@, w, ps, mcount as int, ch2 as int);
                        }
                    }
                }
            }
        }
        let new_lowest = if ch1 < lowest {
            ch1
        } else {
            lowest
        };
        proof {
            // The lowest moved position: entries before it are untouched and
            // the digit there has risen.
            if d1 == dpo && d1 == len0 {
                let dc0 = digits(c0);
                let dco = digits(co);
                let dc2 = digits(c2@);
                assert forall|j: int| 0 <= j < ch1 implies #[trigger] c2@[j] == co[j] by {
                    assert(c2@[j] == g1[j]);
                }
                assert forall|j: int| 0 <= j < new_lowest implies #[trigger] c2@[j] == c0[j] by {
                    assert(c2@[j] == co[j]);
                }
                if first || ch1 < lowest {
                    assert(dc2[ch1 as int] == g1[ch1 as int][1] || ch1 == 0);
                    assert(lt_at(dco, digits(g1), ch1 as int));
                    assert(dco[ch1 as int] == dc0[ch1 as int]);
                    assert(dc2[ch1 as int] == digits(g1)[ch1 as int]);
                    assert(agree(dc0, dc2, ch1 as int)) by {
                        assert forall|j: int| 0 <= j < ch1 implies dc0[j] == dc2[j] by {
                            assert(c2@[j] == c0[j]);
                        }
                    }
                    assert(lt_at(dc0, dc2, new_lowest as int));
                } else {
                    assert(lt_at(dc0, dco, lowest as int));
                    if ch1 == lowest {
                        assert(lt_at(dco, digits(g1), ch1 as int));
                        assert(dc2[ch1 as int] == digits(g1)[ch1 as int]);
                    } else {
                        assert(c2@[lowest as int] == co[lowest as int]);
                    }
                    assert(agree(dc0, dc2, lowest as int)) by {
                        assert forall|j: int| 0 <= j < lowest implies dc0[j] == dc2[j] by {
                            assert(c2@[j] == c0[j]);
                        }
                    }
                    assert(lt_at(dc0, dc2, new_lowest as int));
                }
            }
            first = false;
        }
        count = c2;
        change = ch2;
        last = l1;
        depth = d1;
        lowest = new_lowest;
        if !zero {
            return (count, lowest, last, depth);
        }
    }
}

/// What the first `i + 1` layers of the chain `c` compute together: the
/// intermediate output after position `i`.
pub open spec fn chain_output(unique: Seq<[i16; 16]>, c: Seq<[usize; 2]>, i: int) -> Seq<i16>
    decreases i,
{
    if i <= 0 {
        compose(unique[c[0][0] as int]@, identity_table())
    } else {
        compose(unique[c[i][0] as int]@, chain_output(unique, c, i - 1))
    }
}

/// Every layer of `unique` is a table of signal strengths.
pub open spec fn layers_ok(unique: Seq<[i16; 16]>) -> bool {
    forall|u: int| 0 <= u < unique.len() ==> is_signal_table(#[trigger] unique[u]@)
}

/// Some intermediate output of `w` before its last layer is illegal.
pub open spec fn has_illegal_prefix(
    unique: Seq<[i16; 16]>,
    w: Seq<[usize; 2]>,
    legality: Seq<[usize; 2]>,
) -> bool {
    exists|i: int| 0 <= i < w.len() - 1 && !spec_legal(#[trigger] chain_output(unique, w, i), legality)
}

pub proof fn lemma_chain_output_signal(
    unique: Seq<[i16; 16]>,
    c: Seq<[usize; 2]>,
    i: int,
    mcount: int,
)
    requires
        layers_ok(unique),
        unique.len() == mcount,
        0 <= i < c.len(),
        forall|j: int| 0 <= j < c.len() ==> (#[trigger] c[j])[0] < mcount,
    ensures
        is_signal_table(chain_output(unique, c, i)),
    decreases i,
{
    assert(c[i][0] < mcount);
    let l = unique[c[i][0] as int]@;
    assert(is_signal_table(l));
    if i <= 0 {
        assert(is_signal_table(compose(l, identity_table())));
    } else {
        lemma_chain_output_signal(unique, c, i - 1, mcount);
        let prev = chain_output(unique, c, i - 1);
        assert forall|j: int| 0 <= j < 16 implies 0 <= #[trigger] compose(l, prev)[j] < 16 by {
            assert(0 <= prev[j] < 16);
        }
    }
}

/// The intermediate output after position `i` is the function of the first
/// `i + 1` layers of the chain.
pub proof fn lemma_chain_output_is_compose_all(unique: Seq<[i16; 16]>, c: Seq<[usize; 2]>, i: int)
    requires
        0 <= i,
    ensures
        chain_output(unique, c, i) == compose_all(unique, c, i + 1),
    decreases i,
{
    if i > 0 {
        lemma_chain_output_is_compose_all(unique, c, i - 1);
    } else {
        assert(compose_all(unique, c, 0) == identity_table());
    }
}

/// The intermediate output after position `i` depends on entries `0..=i` only.
pub proof fn lemma_chain_output_prefix(
    unique: Seq<[i16; 16]>,
    c: Seq<[usize; 2]>,
    w: Seq<[usize; 2]>,
    i: int,
)
    requires
        0 <= i,
        forall|j: int| 0 <= j <= i ==> #[trigger] c[j] == w[j],
    ensures
        chain_output(unique, c, i) == chain_output(unique, w, i),
    decreases i,
{
    assert(c[i] == w[i]);
    if i > 0 {
        lemma_chain_output_prefix(unique, c, w, i - 1);
    }
}

/// What `next` returns after the chain `count0`: a later chain `c2` of the
/// pair table, its intermediate outputs `cur2`, all legal before the last,
/// and its length `d2`; every chain passed over has an illegal
/// intermediate output.
pub open spec fn next_outcome(
    unique: Seq<[i16; 16]>,
    ps: Seq<Seq<[usize; 2]>>,
    mcount: int,
    legality: Seq<[usize; 2]>,
    count0: Seq<[usize; 2]>,
    c2: Seq<[usize; 2]>,
    cur2: Seq<[i16; 16]>,
    d2: int,
) -> bool {
    &&& valid_chain(c2, ps, mcount)
    &&& d2 == c2.len()
    &&& cur2.len() >= d2
    &&& same_parity(d2, count0.len() as int)
    &&& beyond(c2, count0, count0.len() - 1)
    &&& forall|i: int| 0 <= i < d2 ==> #[trigger] cur2[i]@ == chain_output(unique, c2, i)
    &&& forall|i: int| 0 <= i < d2 - 1 ==> spec_legal(#[trigger] cur2[i]@, legality)
    &&& forall|w: Seq<[usize; 2]>|
        candidate(w, count0, count0.len() - 1, ps, mcount) && #[trigger] precedes(w, c2)
            ==> has_illegal_prefix(unique, w, legality)
}

/// Returns the next chain to check: the first chain after `count` in the
/// search order (rows permitting) whose intermediate outputs before the last
/// layer are all legal, with those outputs recomputed from the first changed
/// position on: the outputs before it are kept.
#[verifier::loop_isolation(false)]
pub fn next(
    count: Vec<[usize; 2]>,
    current: Vec<[i16; 16]>,
    depth: usize,
    unique: &Vec<[i16; 16]>,
    mcount: usize,
    pairs: &Vec<Vec<[usize; 2]>>,
    legality: &Vec<[usize; 2]>,
) -> (res: (Vec<[usize; 2]>, Vec<[i16; 16]>, usize))
    requires
        pairs_wf(rows_view(pairs), mcount as int),
        mcount >= 1,
        unique.len() == mcount,
        layers_ok(unique@),
        is_legality_table(legality@),
        valid_chain(count@, rows_view(pairs), mcount as int),
        depth == count.len(),
        current.len() >= depth,
        forall|i: int| 0 <= i < depth ==> #[trigger] current@[i]@ == chain_output(unique@, count@, i),
        forall|i: int| 0 <= i < depth - 1 ==> spec_legal(#[trigger] current@[i]@, legality@),
    ensures
        next_outcome(
            unique@,
            rows_view(pairs),
            mcount as int,
            legality@,
            count@,
            res.0@,
            res.1@,
            res.2 as int,
        ),
        res.1.len() == if current.len() > res.2 { current.len() } else { res.2 },
{
    let ghost ps = rows_view(pairs);
    let ghost c0 = count@;
    let ghost len0 = depth as int;
    let ghost base = digit_base(ps, mcount as int);
    let ghost clen = current.len() as int;
    let ghost mut first = true;
    let mut count = count;
    let mut current = current;
    let mut depth = depth;
    let mut last: usize = depth - 1;
    let mut change: usize = last;
    let mut asc: [i16; 16] = [0i16; 16];
    for i in 1..16usize
        invariant
            forall|j: int| 0 <= j < i ==> #[trigger] asc@[j] == j,
    {
        asc[i] = i as i16;
    }
    assert(asc@ =~= identity_table());
    proof {
        lemma_chain_bounded(c0, ps, mcount as int);
        lemma_digits_below(c0, ps, mcount as int);
        lemma_rank_bounds(digits(c0), base);
    }
    loop
        invariant
            pairs_wf(ps, mcount as int),
            ps == rows_view(pairs),
            mcount >= 1,
            base == digit_base(ps, mcount as int),
            unique.len() == mcount,
            layers_ok(unique@),
            is_legality_table(legality@),
            asc@ == identity_table(),
            valid_chain(count@, ps, mcount as int),
            depth == count.len(),
            last + 1 == depth,
            change <= last,
            same_parity(depth as int, len0),
            0 <= rank(digits(count@), base) < weight(base, count.len() as nat),
            1 <= current.len(),
            clen <= current.len(),
            current.len() <= if clen > depth { clen } else { depth as int },
            change <= current.len(),
            forall|j: int| 0 <= j < change ==> #[trigger] current@[j]@ == chain_output(unique@, count@, j),
            forall|j: int| 0 <= j < change ==> spec_legal(#[trigger] current@[j]@, legality@),
            first ==> count@ == c0 && change + 1 == len0,
            !first ==> beyond(count@, c0, len0 - 1),
            forall|w: Seq<[usize; 2]>|
                #[trigger] candidate(w, c0, len0 - 1, ps, mcount as int) && !beyond(w, count@, change as int)
                    ==> has_illegal_prefix(unique@, w, legality@),
        decreases usize::MAX - count.len(), weight(base, count.len() as nat) - rank(
            digits(count@),
            base,
        ),
    {
        let ghost co = count@;
        let ghost cho = change as int;
        let (c1, ch1, l1, d1) = iter8(count, change, last, mcount, depth, pairs);
        proof {
            // The outputs before the first changed position stay valid.
            assert forall|j: int| 0 <= j < ch1 implies #[trigger] current@[j]@ == chain_output(
                unique@,
                c1@,
                j,
            ) by {
                lemma_chain_output_prefix(unique@, co, c1@, j);
            }
            // The search only moves forward.
            lemma_chain_bounded(c1@, ps, mcount as int);
            lemma_digits_below(c1@, ps, mcount as int);
            lemma_rank_bounds(digits(c1@), base);
            if c1.len() == co.len() {
                lemma_lex_lt_extend(digits(co), digits(c1@), cho + 1, co.len() as int);
                lemma_chain_bounded(co, ps, mcount as int);
                lemma_digits_below(co, ps, mcount as int);
                lemma_rank_monotone(digits(co), digits(c1@), base);
                if !first && co.len() == len0 {
                    let k = choose|k: int| k < cho + 1 && #[trigger] lt_at(digits(co), digits(c1@), k);
                    lemma_lex_lt_then_lt_at(digits(c0), digits(co), digits(c1@), len0, k);
                }
            }
            // Chains passed over by this step are not whole chains.
            assert forall|w: Seq<[usize; 2]>|
                #[trigger] candidate(w, c0, len0 - 1, ps, mcount as int) && beyond(w, co, cho)
                    implies candidate(w, co, cho, ps, mcount as int) by {}
        }
        count = c1;
        change = ch1;
        last = l1;
        depth = d1;
        let mut i = change;
        while i < last + 1
            invariant
                pairs_wf(ps, mcount as int),
                ps == rows_view(pairs),
                unique.len() == mcount,
                layers_ok(unique@),
                is_legality_table(legality@),
                asc@ == identity_table(),
                valid_chain(count@, ps, mcount as int),
                depth == count.len(),
                last + 1 == depth,
                change <= i <= last,
                1 <= current.len(),
                clen <= current.len(),
                current.len() <= if clen > depth { clen } else { depth as int },
                i <= current.len(),
                forall|j: int| 0 <= j < i ==> #[trigger] current@[j]@ == chain_output(unique@, count@, j),
                forall|j: int| 0 <= j < i ==> spec_legal(#[trigger] current@[j]@, legality@),
            decreases last + 1 - i,
        {
            proof {
                lemma_chain_bounded(count@, ps, mcount as int);
                if i > 0 {
                    lemma_chain_output_signal(unique@, count@, i - 1, mcount as int);
                }
            }
            let layer_idx = count[i][0];
            if i == 0 {
                current[i] = through(unique[layer_idx], asc);
            } else if i > current.len() - 1 {
                current.push(through(unique[layer_idx], current[i - 1]));
            } else {
                current[i] = through(unique[layer_idx], current[i - 1]);
            }
            if i == last {
                proof {
                    assert forall|w: Seq<[usize; 2]>|
                        candidate(w, c0, len0 - 1, ps, mcount as int) && #[trigger] precedes(w, count@)
                            implies has_illegal_prefix(unique@, w, legality@) by {
                        if beyond(w, co, cho) {
                            assert(candidate(w, co, cho, ps, mcount as int));
                        }
                    }
                    if first {
                        assert(beyond(count@, c0, len0 - 1));
                    }
                }
                return (count, current, depth);
            } else if !legal(current[i], legality) {
                proof {
                    assert forall|w: Seq<[usize; 2]>|
                        #[trigger] candidate(w, c0, len0 - 1, ps, mcount as int) && !beyond(
                            w,
                            count@,
                            i as int,
                        ) implies has_illegal_prefix(unique@, w, legality@) by {
                        if beyond(w, co, cho) {
                            assert(candidate(w, co, cho, ps, mcount as int));
                            assert(!precedes(w, count@));
                            let dw = digits(w);
                            let dc = digits(count@);
                            assert(w.len() == count@.len());
                            lemma_lex_trichotomy(dw, dc, i + 1);
                            if lex_lt(dw, dc, i + 1) {
                                lemma_lex_lt_extend(dw, dc, i + 1, w.len() as int);
                            }
                            assert(agree(dw, dc, i + 1));
                            assert(agree(dc, dw, i + 1));
                            lemma_entries_agree(count@, w, ps, mcount as int, i + 1);
                            lemma_chain_output_prefix(unique@, count@, w, i as int);
                            assert(!spec_legal(chain_output(unique@, w, i as int), legality@));
                        }
                    }
                    if first {
                        assert(beyond(count@, c0, len0 - 1));
                    }
                    first = false;
                }
                change = i;
                break;
            }
            i += 1;
        }
    }
}

/// A legal intermediate output has only legal intermediate outputs before it.
pub proof fn lemma_legal_prefix_back(
    unique: Seq<[i16; 16]>,
    w: Seq<[usize; 2]>,
    legality: Seq<[usize; 2]>,
    i: int,
    j: int,
)
    requires
        is_legality_table(legality),
        0 <= i <= j,
        spec_legal(chain_output(unique, w, j), legality),
    ensures
        spec_legal(chain_output(unique, w, i), legality),
    decreases j - i,
{
    if i < j {
        let prev = chain_output(unique, w, j - 1);
        assert(prev.len() == 16) by {
            if j - 1 <= 0 {
                assert(chain_output(unique, w, j - 1) == compose(
                    unique[w[0][0] as int]@,
                    identity_table(),
                ));
            } else {
                assert(chain_output(unique, w, j - 1) == compose(
                    unique[w[j - 1][0] as int]@,
                    chain_output(unique, w, j - 2),
                ));
                lemma_chain_output_len(unique, w, j - 2);
            }
        }
        lemma_legal_after_layer(unique[w[j][0] as int]@, prev, legality);
        lemma_legal_prefix_back(unique, w, legality, i, j - 1);
    }
}

pub proof fn lemma_chain_output_len(unique: Seq<[i16; 16]>, w: Seq<[usize; 2]>, i: int)
    ensures
        chain_output(unique, w, i).len() == 16,
    decreases i,
{
    if i > 0 {
        lemma_chain_output_len(unique, w, i - 1);
    }
}

/// A chain with an illegal intermediate output does not compute the target:
/// the chains that `next` passes over are no solutions.
pub proof fn lemma_illegal_prefix_misses_target(
    unique: Seq<[i16; 16]>,
    w: Seq<[usize; 2]>,
    legality: Seq<[usize; 2]>,
)
    requires
        is_target_legality(legality),
        w.len() >= 1,
        has_illegal_prefix(unique, w, legality),
    ensures
        chain_output(unique, w, w.len() - 1) != TARGET@,
{
    lemma_target_legality_is_table(legality);
    let i = choose|i: int|
        0 <= i < w.len() - 1 && !spec_legal(#[trigger] chain_output(unique, w, i), legality);
    if chain_output(unique, w, w.len() - 1) == TARGET@ {
        lemma_target_legal(legality);
        lemma_legal_prefix_back(unique, w, legality, i, w.len() - 1);
    }
}

/// Two whole chains of which neither comes before the other in the search
/// order are the same chain.
pub proof fn lemma_search_order_total(
    a: Seq<[usize; 2]>,
    b: Seq<[usize; 2]>,
    ps: Seq<Seq<[usize; 2]>>,
    mcount: int,
)
    requires
        valid_chain(a, ps, mcount),
        valid_chain(b, ps, mcount),
        !precedes(a, b),
        !precedes(b, a),
    ensures
        a == b,
{
    lemma_lex_trichotomy(digits(a), digits(b), a.len() as int);
    lemma_entries_agree(a, b, ps, mcount, a.len() as int);
    assert(a =~= b);
}

/// With an empty legality list no chain is refused, so `next` moves exactly
/// one step of `iter8` taken from the last position: both give the first
/// chain after `count0` in the search order, and `next` reports its length.
pub proof fn lemma_next_without_legality_is_one_step(
    unique: Seq<[i16; 16]>,
    ps: Seq<Seq<[usize; 2]>>,
    mcount: int,
    count0: Seq<[usize; 2]>,
    c2: Seq<[usize; 2]>,
    cur2: Seq<[i16; 16]>,
    d2: int,
    c3: Seq<[usize; 2]>,
)
    requires
        valid_chain(count0, ps, mcount),
        next_outcome(unique, ps, mcount, Seq::empty(), count0, c2, cur2, d2),
        valid_chain(c3, ps, mcount),
        same_parity(c3.len() as int, count0.len() as int),
        beyond(c3, count0, count0.len() - 1),
        forall|w: Seq<[usize; 2]>|
            candidate(w, count0, count0.len() - 1, ps, mcount) ==> !#[trigger] precedes(w, c3),
    ensures
        c2 == c3,
        d2 == c3.len(),
{
    let none: Seq<[usize; 2]> = Seq::empty();
    assert(candidate(c2, count0, count0.len() - 1, ps, mcount));
    assert(candidate(c3, count0, count0.len() - 1, ps, mcount));
    assert(!has_illegal_prefix(unique, c3, none));
    assert(!precedes(c3, c2));
    assert(!precedes(c2, c3));
    lemma_search_order_total(c2, c3, ps, mcount);
}

} // verus!
