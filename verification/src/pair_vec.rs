//! The pair table: for each unique layer, the layers that may follow it,
//! keeping only two-layer functions that no shorter chain computes and that
//! no earlier pair already computes.
use vstd::prelude::*;
use crate::constants::{TARGET, identity_table, is_signal_table};
use crate::order::{lemma_weight_monotone, weight};
use crate::layer::{compose, groups, layers_view, spec_groups, through};
use std::collections::HashSet;
use crate::search::{layers_ok, pairs_wf, rows_view};

verus! {

/// The function of layer `f` followed by layer `s`.
pub open spec fn pass_of(u: Seq<Seq<i16>>, f: int, s: int) -> Seq<i16> {
    compose(u[s], u[f])
}

/// A pair is kept when its function has enough groups and is new.
pub open spec fn keeps(pass: Seq<i16>, used: Set<Seq<i16>>) -> bool {
    spec_groups(pass) >= spec_groups(TARGET@) && !used.contains(pass)
}

/// The functions that count as seen before any pair: the identity and the
/// unique layers themselves.
pub open spec fn initial_used(u: Seq<Seq<i16>>) -> Set<Seq<i16>> {
    u.to_set().insert(identity_table())
}

/// Row `f` over the second layers `0..s`: the second layers kept, and the
/// seen functions afterwards.
pub open spec fn row_upto(u: Seq<Seq<i16>>, f: int, s: int, used: Set<Seq<i16>>) -> (Seq<int>, Set<Seq<i16>>)
    decreases s,
{
    if s <= 0 {
        (Seq::empty(), used)
    } else {
        let (row, seen) = row_upto(u, f, s - 1, used);
        let p = pass_of(u, f, s - 1);
        if keeps(p, seen) {
            (row.push(s - 1), seen.insert(p))
        } else {
            (row, seen)
        }
    }
}

/// The rows of the first layers `0..f`, and the seen functions afterwards.
pub open spec fn table_upto(u: Seq<Seq<i16>>, f: int) -> (Seq<Seq<int>>, Set<Seq<i16>>)
    decreases f,
{
    if f <= 0 {
        (Seq::empty(), initial_used(u))
    } else {
        let (t, seen) = table_upto(u, f - 1);
        let (row, seen2) = row_upto(u, f - 1, u.len() as int, seen);
        (t.push(row), seen2)
    }
}

/// `rows` lists, row by row, the second layers in `table`, each entry with
/// its own position.
pub open spec fn rows_match(rows: Seq<Seq<[usize; 2]>>, table: Seq<Seq<int>>) -> bool {
    &&& rows.len() == table.len()
    &&& forall|f: int|
        0 <= f < rows.len() ==> (#[trigger] rows[f]).len() == table[f].len() && forall|k: int|
            0 <= k < rows[f].len() ==> (#[trigger] rows[f][k])[0] == table[f][k] && rows[f][k][1]
                == k
}

pub proof fn lemma_row_entries_below(u: Seq<Seq<i16>>, f: int, s: int, used: Set<Seq<i16>>)
    requires
        0 <= s,
    ensures
        forall|k: int|
            0 <= k < row_upto(u, f, s, used).0.len() ==> 0 <= #[trigger] row_upto(u, f, s, used).0[k]
                < s,
    decreases s,
{
    if s > 0 {
        lemma_row_entries_below(u, f, s - 1, used);
        let (row, seen) = row_upto(u, f, s - 1, used);
        let p = pass_of(u, f, s - 1);
        if keeps(p, seen) {
            assert(row_upto(u, f, s, used).0 == row.push(s - 1));
        } else {
            assert(row_upto(u, f, s, used).0 == row);
        }
    }
}

/// The table as a number in base sixteen from entry `k` on, entry `k` the
/// least significant digit.
pub open spec fn pack_from(s: Seq<i16>, k: int) -> int
    decreases 16 - k,
{
    if k >= 16 {
        0
    } else {
        s[k] + 16 * pack_from(s, k + 1)
    }
}

/// The table as a number in base sixteen.
pub open spec fn packed(s: Seq<i16>) -> int {
    pack_from(s, 0)
}

proof fn lemma_digit_split(x1: int, y1: int, x2: int, y2: int)
    requires
        0 <= x1 < 16,
        0 <= x2 < 16,
        x1 + 16 * y1 == x2 + 16 * y2,
    ensures
        x1 == x2,
        y1 == y2,
{
    assert(x1 == x2 && y1 == y2) by (nonlinear_arith)
        requires
            0 <= x1 < 16,
            0 <= x2 < 16,
            x1 + 16 * y1 == x2 + 16 * y2,
    ;
}

pub proof fn lemma_pack_bounds(s: Seq<i16>, k: int)
    requires
        is_signal_table(s),
        0 <= k <= 16,
    ensures
        0 <= pack_from(s, k) < weight(16, (16 - k) as nat),
    decreases 16 - k,
{
    if k < 16 {
        lemma_pack_bounds(s, k + 1);
        let x = s[k] as int;
        let y = pack_from(s, k + 1);
        let w = weight(16, (16 - (k + 1)) as nat);
        assert(0 <= x + 16 * y < 16 * w) by (nonlinear_arith)
            requires
                0 <= x < 16,
                0 <= y < w,
        ;
        assert(weight(16, (16 - k) as nat) == 16 * w);
    }
}

/// Different tables of signal strengths pack to different numbers.
pub proof fn lemma_pack_injective(a: Seq<i16>, b: Seq<i16>, k: int)
    requires
        is_signal_table(a),
        is_signal_table(b),
        0 <= k <= 16,
        pack_from(a, k) == pack_from(b, k),
    ensures
        forall|j: int| k <= j < 16 ==> a[j] == b[j],
    decreases 16 - k,
{
    if k < 16 {
        lemma_pack_bounds(a, k + 1);
        lemma_pack_bounds(b, k + 1);
        lemma_digit_split(a[k] as int, pack_from(a, k + 1), b[k] as int, pack_from(b, k + 1));
        lemma_pack_injective(a, b, k + 1);
    }
}

pub proof fn lemma_packed_eq(a: Seq<i16>, b: Seq<i16>)
    requires
        is_signal_table(a),
        is_signal_table(b),
    ensures
        packed(a) == packed(b) <==> a == b,
{
    if packed(a) == packed(b) {
        lemma_pack_injective(a, b, 0);
        assert(a =~= b);
    }
}

/// Packs a table of signal strengths into a number, four bits per entry.
pub fn pack(t: &[i16; 16]) -> (key: u64)
    requires
        is_signal_table(t@),
    ensures
        key == packed(t@),
{
    let mut acc: u64 = 0;
    let mut k: usize = 16;
    proof {
        reveal_with_fuel(weight, 17);
        assert(weight(16, 16) == 0x1_0000_0000_0000_0000);
    }
    while k > 0
        invariant
            0 <= k <= 16,
            is_signal_table(t@),
            acc == pack_from(t@, k as int),
            weight(16, 16) == 0x1_0000_0000_0000_0000,
        decreases k,
    {
        k -= 1;
        proof {
            lemma_pack_bounds(t@, k as int);
            lemma_weight_monotone(16, (16 - k) as nat, 16);
            lemma_pack_bounds(t@, k + 1);
        }
        acc = acc * 16 + t[k] as u64;
    }
    acc
}

/// Some table of `seen` packs to `key`.
pub open spec fn packs_some(seen: Set<Seq<i16>>, key: u64) -> bool {
    exists|p: Seq<i16>| seen.contains(p) && #[trigger] packed(p) == key
}

pub proof fn lemma_identity_signal()
    ensures
        is_signal_table(identity_table()),
{
}

/// Every function the pair generation has seen is a table of signal
/// strengths.
pub proof fn lemma_seen_signal(u: Seq<Seq<i16>>, f: int, s: int)
    requires
        forall|j: int| 0 <= j < u.len() ==> is_signal_table(#[trigger] u[j]),
        0 <= f < u.len(),
        0 <= s <= u.len(),
    ensures
        forall|p: Seq<i16>| #[trigger] table_upto(u, f).1.contains(p) ==> is_signal_table(p),
        forall|p: Seq<i16>| #[trigger]
            row_upto(u, f, s, table_upto(u, f).1).1.contains(p) ==> is_signal_table(p),
{
    lemma_identity_signal();
    lemma_table_passes(u, f);
    lemma_table_len(u, f);
    let (t, seen0) = table_upto(u, f);
    assert forall|p: Seq<i16>| #[trigger] seen0.contains(p) implies is_signal_table(p) by {
        if initial_used(u).contains(p) {
            if p != identity_table() {
                let j = choose|j: int| 0 <= j < u.len() && u[j] == p;
            }
        } else {
            let (g, k) = choose|g: int, k: int|
                0 <= g < t.len() && 0 <= k < t[g].len() && #[trigger] pass_of(u, g, t[g][k]) == p;
            lemma_table_entries_below(u, f, g);
            lemma_compose_signal(u[t[g][k]], u[g]);
        }
    }
    lemma_row_passes(u, f, s, seen0);
    lemma_row_entries_below(u, f, s, seen0);
    let (row, seen) = row_upto(u, f, s, seen0);
    assert forall|p: Seq<i16>| #[trigger] seen.contains(p) implies is_signal_table(p) by {
        if !seen0.contains(p) {
            let k = choose|k: int| 0 <= k < row.len() && #[trigger] pass_of(u, f, row[k]) == p;
            lemma_compose_signal(u[row[k]], u[f]);
        }
    }
}

pub proof fn lemma_compose_signal(a: Seq<i16>, b: Seq<i16>)
    requires
        is_signal_table(a),
        is_signal_table(b),
    ensures
        is_signal_table(compose(a, b)),
{
    assert forall|j: int| 0 <= j < 16 implies 0 <= #[trigger] compose(a, b)[j] < 16 by {
        assert(0 <= b[j] < 16);
    }
}

/// Generates, for each unique layer, the layers that may follow it. Each
/// entry is `[unique index, position in its row]`.
pub fn generate_pairs(unique: &Vec<[i16; 16]>) -> (pairs: Vec<Vec<[usize; 2]>>)
    requires
        layers_ok(unique@),
    ensures
        rows_match(rows_view(&pairs), table_upto(layers_view(unique@), unique.len() as int).0),
        pairs_wf(rows_view(&pairs), unique.len() as int),
{
    let ghost u = layers_view(unique@);
    let n = unique.len();
    let target_groups = groups(TARGET);
    let mut identity: [i16; 16] = [0i16; 16];
    for i in 0..16usize
        invariant
            forall|j: int| 0 <= j < i ==> #[trigger] identity@[j] == j,
    {
        identity[i] = i as i16;
    }
    assert(identity@ =~= identity_table());
    proof {
        lemma_identity_signal();
    }
    let mut used: HashSet<u64> = HashSet::new();
    let identity_key = pack(&identity);
    used.insert(identity_key);
    proof {
        assert(u.take(0) =~= Seq::<Seq<i16>>::empty());
        assert(Seq::<Seq<i16>>::empty().to_set() =~= Set::<Seq<i16>>::empty());
        assert forall|key: u64| #[trigger] used@.contains(key) <==> packs_some(
            u.take(0).to_set().insert(identity_table()),
            key,
        ) by {
            if used@.contains(key) {
                assert(u.take(0).to_set().insert(identity_table()).contains(identity_table()));
                assert(packed(identity_table()) == key);
            }
            if packs_some(u.take(0).to_set().insert(identity_table()), key) {
                let p = choose|p: Seq<i16>|
                    u.take(0).to_set().insert(identity_table()).contains(p) && #[trigger] packed(p)
                        == key;
                assert(p == identity_table());
            }
        }
    }
    for k in 0..n
        invariant
            n == unique.len(),
            u == layers_view(unique@),
            layers_ok(unique@),
            is_signal_table(identity_table()),
            forall|key: u64| #[trigger]
                used@.contains(key) <==> packs_some(u.take(k as int).to_set().insert(identity_table()), key),
    {
        assert(unique@[k as int]@ == u[k as int]);
        let key = pack(&unique[k]);
        let ghost before = used@;
        used.insert(key);
        proof {
            let old_seen = u.take(k as int).to_set().insert(identity_table());
            let new_seen = u.take(k + 1).to_set().insert(identity_table());
            assert(u.take(k + 1) =~= u.take(k as int).push(u[k as int]));
            u.take(k as int).lemma_push_to_set_commute(u[k as int]);
            assert(new_seen =~= old_seen.insert(u[k as int]));
            assert forall|x: u64| #[trigger] used@.contains(x) <==> packs_some(new_seen, x) by {
                if used@.contains(x) {
                    if x == key {
                        assert(new_seen.contains(u[k as int]) && packed(u[k as int]) == x);
                    } else {
                        assert(before.contains(x));
                        let p = choose|p: Seq<i16>| old_seen.contains(p) && #[trigger] packed(p) == x;
                        assert(new_seen.contains(p));
                    }
                }
                if packs_some(new_seen, x) {
                    let p = choose|p: Seq<i16>| new_seen.contains(p) && #[trigger] packed(p) == x;
                    if p != u[k as int] {
                        assert(old_seen.contains(p));
                        assert(packs_some(old_seen, x));
                    }
                }
            }
        }
    }
    assert(u.take(n as int) =~= u);
    proof {
        assert forall|p: Seq<i16>| #[trigger] initial_used(u).contains(p) implies is_signal_table(p) by {
            if p != identity_table() {
                let j = choose|j: int| 0 <= j < u.len() && u[j] == p;
                assert(unique@[j]@ == p);
            }
        }
    }
    let mut pairs: Vec<Vec<[usize; 2]>> = Vec::new();
    for f in 0..n
        invariant
            n == unique.len(),
            u == layers_view(unique@),
            layers_ok(unique@),
            target_groups == spec_groups(TARGET@),
            rows_match(rows_view(&pairs), table_upto(u, f as int).0),
            forall|key: u64| #[trigger] used@.contains(key) <==> packs_some(table_upto(u, f as int).1, key),
    {
        let first = unique[f];
        let mut cpairs: Vec<[usize; 2]> = Vec::new();
        let ghost seen0 = table_upto(u, f as int).1;
        for index in 0..n
            invariant
                n == unique.len(),
                u == layers_view(unique@),
                layers_ok(unique@),
                first@ == u[f as int],
                0 <= f < n,
                seen0 == table_upto(u, f as int).1,
                target_groups == spec_groups(TARGET@),
                cpairs@.len() == row_upto(u, f as int, index as int, seen0).0.len(),
                forall|k: int|
                    0 <= k < cpairs@.len() ==> (#[trigger] cpairs@[k])[0] == row_upto(
                        u,
                        f as int,
                        index as int,
                        seen0,
                    ).0[k] && cpairs@[k][1] == k,
                forall|key: u64| #[trigger]
                    used@.contains(key) <==> packs_some(row_upto(u, f as int, index as int, seen0).1, key),
        {
            let second = unique[index];
            assert(first@ == unique@[f as int]@);
            let pass = through(second, first);
            let ghost seen = row_upto(u, f as int, index as int, seen0).1;
            assert(pass@ == pass_of(u, f as int, index as int));
            proof {
                assert(is_signal_table(unique@[index as int]@));
                assert(is_signal_table(first@));
                assert forall|j: int| 0 <= j < 16 implies 0 <= #[trigger] pass@[j] < 16 by {
                    assert(0 <= first@[j] < 16);
                }
            }
            let key = pack(&pass);
            proof {
                assert forall|j: int| 0 <= j < u.len() implies is_signal_table(#[trigger] u[j]) by {
                    assert(u[j] == unique@[j]@);
                }
                lemma_seen_signal(u, f as int, index as int);
                if used@.contains(key) {
                    let p = choose|p: Seq<i16>| seen.contains(p) && #[trigger] packed(p) == key;
                    lemma_packed_eq(p, pass@);
                }
                if seen.contains(pass@) {
                    assert(packs_some(seen, key));
                }
            }
            if groups(pass) >= target_groups && !used.contains(&key) {
                let position = cpairs.len();
                cpairs.push([index, position]);
                let ghost before = used@;
                used.insert(key);
                proof {
                    let new_seen = seen.insert(pass@);
                    assert forall|x: u64| #[trigger] used@.contains(x) <==> packs_some(new_seen, x) by {
                        if used@.contains(x) {
                            if x == key {
                                assert(new_seen.contains(pass@) && packed(pass@) == x);
                            } else {
                                assert(before.contains(x));
                                let p = choose|p: Seq<i16>| seen.contains(p) && #[trigger] packed(p) == x;
                                assert(new_seen.contains(p));
                            }
                        }
                        if packs_some(new_seen, x) {
                            let p = choose|p: Seq<i16>| new_seen.contains(p) && #[trigger] packed(p) == x;
                            if p != pass@ {
                                assert(seen.contains(p));
                                assert(packs_some(seen, x));
                            }
                        }
                    }
                }
            }
        }
        let ghost before_pairs = rows_view(&pairs);
        pairs.push(cpairs);
        proof {
            assert(rows_view(&pairs) =~= before_pairs.push(cpairs@));
        }
    }
    proof {
        lemma_table_len(u, n as int);
        let t = table_upto(u, n as int).0;
        assert forall|f: int, k: int|
            0 <= f < rows_view(&pairs).len() && 0 <= k < rows_view(&pairs)[f].len() implies (
            #[trigger] rows_view(&pairs)[f][k])[1] == k && rows_view(&pairs)[f][k][0] < n by {
            lemma_table_entries_below(u, n as int, f);
            assert(rows_view(&pairs)[f][k][0] == t[f][k]);
        }
    }
    pairs
}

pub proof fn lemma_table_len(u: Seq<Seq<i16>>, n: int)
    requires
        0 <= n,
    ensures
        table_upto(u, n).0.len() == n,
    decreases n,
{
    if n > 0 {
        lemma_table_len(u, n - 1);
    }
}

pub proof fn lemma_table_entries_below(u: Seq<Seq<i16>>, n: int, f: int)
    requires
        0 <= f < n,
    ensures
        forall|k: int|
            0 <= k < table_upto(u, n).0[f].len() ==> 0 <= #[trigger] table_upto(u, n).0[f][k] < u.len(),
    decreases n,
{
    lemma_table_len(u, n - 1);
    let (t, seen) = table_upto(u, n - 1);
    let (row, seen2) = row_upto(u, n - 1, u.len() as int, seen);
    assert(table_upto(u, n).0 == t.push(row));
    if f < n - 1 {
        lemma_table_entries_below(u, n - 1, f);
        assert(table_upto(u, n).0[f] == t[f]);
    } else {
        lemma_row_entries_below(u, n - 1, u.len() as int, seen);
        assert(table_upto(u, n).0[f] == row);
    }
}

/// Every pair of row `f` computes a function with enough groups that was
/// not seen before the row, and no two pairs of the row compute the same one;
/// the seen set afterwards adds exactly the row's functions.
pub proof fn lemma_row_passes(u: Seq<Seq<i16>>, f: int, s: int, used: Set<Seq<i16>>)
    requires
        0 <= s,
    ensures
        ({
            let (row, seen) = row_upto(u, f, s, used);
            &&& forall|k: int|
                0 <= k < row.len() ==> #[trigger] keeps(pass_of(u, f, row[k]), used)
            &&& forall|k1: int, k2: int|
                0 <= k1 < k2 < row.len() ==> #[trigger] pass_of(u, f, row[k1]) != #[trigger] pass_of(
                    u,
                    f,
                    row[k2],
                )
            &&& forall|p: Seq<i16>|
                #[trigger] seen.contains(p) <==> used.contains(p) || exists|k: int|
                    0 <= k < row.len() && #[trigger] pass_of(u, f, row[k]) == p
        }),
    decreases s,
{
    if s > 0 {
        lemma_row_passes(u, f, s - 1, used);
        let (row, seen) = row_upto(u, f, s - 1, used);
        let p = pass_of(u, f, s - 1);
        if keeps(p, seen) {
            let row2 = row.push(s - 1);
            let seen2 = seen.insert(p);
            assert(row_upto(u, f, s, used).0 == row2);
            assert(row_upto(u, f, s, used).1 == seen2);
            assert(row2[row.len() as int] == s - 1);
            assert forall|k: int| 0 <= k < row2.len() implies #[trigger] keeps(
                pass_of(u, f, row2[k]),
                used,
            ) by {
                if k < row.len() {
                    assert(row2[k] == row[k]);
                    assert(keeps(pass_of(u, f, row[k]), used));
                } else {
                    assert(!used.contains(p));
                }
            }
            assert forall|k1: int, k2: int| 0 <= k1 < k2 < row2.len() implies #[trigger] pass_of(
                u,
                f,
                row2[k1],
            ) != #[trigger] pass_of(u, f, row2[k2]) by {
                assert(row2[k1] == row[k1]);
                if k2 < row.len() {
                    assert(row2[k2] == row[k2]);
                } else {
                    assert(seen.contains(pass_of(u, f, row[k1])));
                }
            }
            assert forall|x: Seq<i16>| #[trigger] seen2.contains(x) <==> used.contains(x) || exists|k: int|
                0 <= k < row2.len() && #[trigger] pass_of(u, f, row2[k]) == x by {
                if seen2.contains(x) && !used.contains(x) {
                    if x == p {
                        assert(pass_of(u, f, row2[row.len() as int]) == x);
                    } else {
                        let k = choose|k: int| 0 <= k < row.len() && #[trigger] pass_of(u, f, row[k]) == x;
                        assert(row2[k] == row[k]);
                        assert(pass_of(u, f, row2[k]) == x);
                    }
                }
                if exists|k: int| 0 <= k < row2.len() && #[trigger] pass_of(u, f, row2[k]) == x {
                    let k = choose|k: int| 0 <= k < row2.len() && #[trigger] pass_of(u, f, row2[k]) == x;
                    if k < row.len() {
                        assert(row2[k] == row[k]);
                        assert(seen.contains(x));
                    }
                }
            }
        } else {
            assert(row_upto(u, f, s, used).0 == row);
            assert(row_upto(u, f, s, used).1 == seen);
        }
    }
}

/// Every pair in the table computes a function with enough groups that is
/// neither the identity nor a single unique layer, and no two pairs of the
/// table compute the same function.
pub proof fn lemma_table_passes(u: Seq<Seq<i16>>, n: int)
    requires
        0 <= n,
    ensures
        ({
            let (t, seen) = table_upto(u, n);
            &&& forall|f: int, k: int|
                0 <= f < t.len() && 0 <= k < t[f].len() ==> #[trigger] keeps(
                    pass_of(u, f, t[f][k]),
                    initial_used(u),
                )
            &&& forall|f1: int, k1: int, f2: int, k2: int|
                0 <= f1 < t.len() && 0 <= k1 < t[f1].len() && 0 <= f2 < t.len() && 0 <= k2
                    < t[f2].len() && (f1 != f2 || k1 != k2) ==> #[trigger] pass_of(u, f1, t[f1][k1])
                    != #[trigger] pass_of(u, f2, t[f2][k2])
            &&& forall|p: Seq<i16>|
                #[trigger] seen.contains(p) <==> initial_used(u).contains(p) || exists|f: int, k: int|
                    0 <= f < t.len() && 0 <= k < t[f].len() && #[trigger] pass_of(u, f, t[f][k]) == p
        }),
    decreases n,
{
    lemma_table_len(u, n);
    if n > 0 {
        lemma_table_passes(u, n - 1);
        lemma_table_len(u, n - 1);
        let (t, seen) = table_upto(u, n - 1);
        let (row, seen2) = row_upto(u, n - 1, u.len() as int, seen);
        lemma_row_passes(u, n - 1, u.len() as int, seen);
        let t2 = t.push(row);
        assert(table_upto(u, n) == (t2, seen2));
        let last = n - 1;
        assert(t2[last] == row);
        assert forall|f: int, k: int| 0 <= f < t2.len() && 0 <= k < t2[f].len() implies #[trigger] keeps(
            pass_of(u, f, t2[f][k]),
            initial_used(u),
        ) by {
            if f < last {
                assert(t2[f] == t[f]);
                assert(keeps(pass_of(u, f, t[f][k]), initial_used(u)));
            } else {
                assert(keeps(pass_of(u, f, row[k]), seen));
            }
        }
        assert forall|f1: int, k1: int, f2: int, k2: int|
            0 <= f1 < t2.len() && 0 <= k1 < t2[f1].len() && 0 <= f2 < t2.len() && 0 <= k2 < t2[f2].len()
                && (f1 != f2 || k1 != k2) implies #[trigger] pass_of(u, f1, t2[f1][k1])
            != #[trigger] pass_of(u, f2, t2[f2][k2]) by {
            if f1 < last && f2 < last {
                assert(t2[f1] == t[f1] && t2[f2] == t[f2]);
                assert(pass_of(u, f1, t[f1][k1]) != pass_of(u, f2, t[f2][k2]));
            } else if f1 == last && f2 == last {
                if k1 < k2 {
                    assert(pass_of(u, last, row[k1]) != pass_of(u, last, row[k2]));
                } else {
                    assert(pass_of(u, last, row[k2]) != pass_of(u, last, row[k1]));
                }
            } else if f1 == last {
                assert(t2[f2] == t[f2]);
                assert(seen.contains(pass_of(u, f2, t[f2][k2])));
                assert(keeps(pass_of(u, last, row[k1]), seen));
            } else {
                assert(t2[f1] == t[f1]);
                assert(seen.contains(pass_of(u, f1, t[f1][k1])));
                assert(keeps(pass_of(u, last, row[k2]), seen));
            }
        }
        assert forall|p: Seq<i16>| #[trigger] seen2.contains(p) <==> initial_used(u).contains(p) || exists|
            f: int,
            k: int,
        | 0 <= f < t2.len() && 0 <= k < t2[f].len() && #[trigger] pass_of(u, f, t2[f][k]) == p by {
            if seen2.contains(p) && !initial_used(u).contains(p) {
                if seen.contains(p) {
                    let (f, k) = choose|f: int, k: int|
                        0 <= f < t.len() && 0 <= k < t[f].len() && #[trigger] pass_of(u, f, t[f][k]) == p;
                    assert(t2[f] == t[f]);
                    assert(pass_of(u, f, t2[f][k]) == p);
                } else {
                    let k = choose|k: int| 0 <= k < row.len() && #[trigger] pass_of(u, last, row[k]) == p;
                    assert(pass_of(u, last, t2[last][k]) == p);
                }
            }
            if exists|f: int, k: int|
                0 <= f < t2.len() && 0 <= k < t2[f].len() && #[trigger] pass_of(u, f, t2[f][k]) == p {
                let (f, k) = choose|f: int, k: int|
                    0 <= f < t2.len() && 0 <= k < t2[f].len() && #[trigger] pass_of(u, f, t2[f][k]) == p;
                if f < last {
                    assert(t2[f] == t[f]);
                    assert(seen.contains(p));
                } else {
                    assert(pass_of(u, last, row[k]) == p);
                }
            }
        }
    }
}

/// Row `f` holds the second layer `x` exactly when `x` is a layer index,
/// its function has enough groups and is not in `used`, and no earlier
/// second layer of the row computes it; the row is increasing.
pub proof fn lemma_row_membership(u: Seq<Seq<i16>>, f: int, s: int, used: Set<Seq<i16>>)
    requires
        0 <= s,
    ensures
        ({
            let row = row_upto(u, f, s, used).0;
            &&& forall|k1: int, k2: int| 0 <= k1 < k2 < row.len() ==> row[k1] < row[k2]
            &&& forall|x: int|
                #[trigger] row.contains(x) <==> (0 <= x < s && keeps(pass_of(u, f, x), used) && forall|
                    k: int,
                |
                    0 <= k < row.len() && row[k] < x ==> #[trigger] pass_of(u, f, row[k]) != pass_of(
                        u,
                        f,
                        x,
                    ))
        }),
    decreases s,
{
    lemma_row_entries_below(u, f, s, used);
    if s > 0 {
        lemma_row_membership(u, f, s - 1, used);
        lemma_row_passes(u, f, s - 1, used);
        lemma_row_entries_below(u, f, s - 1, used);
        let (r, seen) = row_upto(u, f, s - 1, used);
        let p = pass_of(u, f, s - 1);
        let row = row_upto(u, f, s, used).0;
        if keeps(p, seen) {
            assert(row == r.push(s - 1));
            assert forall|x: int| #[trigger] row.contains(x) <==> (0 <= x < s && keeps(
                pass_of(u, f, x),
                used,
            ) && forall|k: int|
                0 <= k < row.len() && row[k] < x ==> #[trigger] pass_of(u, f, row[k]) != pass_of(
                    u,
                    f,
                    x,
                )) by {
                if x == s - 1 {
                    assert(row[r.len() as int] == x);
                    assert forall|k: int| 0 <= k < row.len() && row[k] < x implies #[trigger] pass_of(
                        u,
                        f,
                        row[k],
                    ) != pass_of(u, f, x) by {
                        assert(row[k] == r[k]);
                        assert(seen.contains(pass_of(u, f, r[k])));
                    }
                } else {
                    if row.contains(x) {
                        let k = choose|k: int| 0 <= k < row.len() && row[k] == x;
                        assert(k < r.len());
                        assert(r.contains(x));
                    }
                    if r.contains(x) {
                        let k = choose|k: int| 0 <= k < r.len() && r[k] == x;
                        assert(row[k] == x);
                    }
                    if 0 <= x < s - 1 {
                        assert((forall|k: int|
                            0 <= k < row.len() && row[k] < x ==> #[trigger] pass_of(u, f, row[k])
                                != pass_of(u, f, x)) <==> (forall|k: int|
                            0 <= k < r.len() && r[k] < x ==> #[trigger] pass_of(u, f, r[k])
                                != pass_of(u, f, x))) by {
                            assert forall|k: int| 0 <= k < r.len() implies row[k] == r[k] by {}
                        }
                    }
                }
            }
        } else {
            assert(row == r);
            assert forall|x: int| #[trigger] row.contains(x) <==> (0 <= x < s && keeps(
                pass_of(u, f, x),
                used,
            ) && forall|k: int|
                0 <= k < row.len() && row[k] < x ==> #[trigger] pass_of(u, f, row[k]) != pass_of(
                    u,
                    f,
                    x,
                )) by {
                if x == s - 1 {
                    if r.contains(x) {
                        let k = choose|k: int| 0 <= k < r.len() && r[k] == x;
                    }
                    if keeps(p, used) {
                        if seen.contains(p) {
                            let k = choose|k: int| 0 <= k < r.len() && #[trigger] pass_of(u, f, r[k]) == p;
                            assert(r[k] < x);
                        }
                    }
                }
            }
        }
    }
}

pub proof fn lemma_table_row(u: Seq<Seq<i16>>, n: int, f: int)
    requires
        0 <= f < n,
    ensures
        table_upto(u, n).0[f] == row_upto(u, f, u.len() as int, table_upto(u, f).1).0,
    decreases n,
{
    lemma_table_len(u, n - 1);
    let (t, seen) = table_upto(u, n - 1);
    let (row, seen2) = row_upto(u, n - 1, u.len() as int, seen);
    assert(table_upto(u, n).0 == t.push(row));
    if f < n - 1 {
        lemma_table_row(u, n - 1, f);
    }
}

/// A second layer `x` follows layer `f` in the pair table exactly when `x`
/// is a layer index, the function of `f` then `x` has enough groups, is
/// neither the identity nor a unique layer, and no pair of an earlier row,
/// nor an earlier pair of the same row, computes it.
pub proof fn lemma_pair_kept_iff(u: Seq<Seq<i16>>, f: int, x: int)
    requires
        0 <= f < u.len(),
    ensures
        ({
            let t = table_upto(u, u.len() as int).0;
            t[f].contains(x) <==> {
                &&& 0 <= x < u.len()
                &&& spec_groups(pass_of(u, f, x)) >= spec_groups(TARGET@)
                &&& !initial_used(u).contains(pass_of(u, f, x))
                &&& forall|g: int, k: int|
                    0 <= g < f && 0 <= k < t[g].len() ==> #[trigger] pass_of(u, g, t[g][k]) != pass_of(
                        u,
                        f,
                        x,
                    )
                &&& forall|k: int|
                    0 <= k < t[f].len() && t[f][k] < x ==> #[trigger] pass_of(u, f, t[f][k])
                        != pass_of(u, f, x)
            }
        }),
{
    let n = u.len() as int;
    let t = table_upto(u, n).0;
    let (tf, seen) = table_upto(u, f);
    lemma_table_len(u, n);
    lemma_table_len(u, f);
    lemma_table_passes(u, f);
    lemma_table_row(u, n, f);
    lemma_row_membership(u, f, n, seen);
    assert forall|g: int| 0 <= g < f implies #[trigger] t[g] == tf[g] by {
        lemma_table_row(u, n, g);
        lemma_table_row(u, f, g);
    }
    let p = pass_of(u, f, x);
    assert(!seen.contains(p) <==> (!initial_used(u).contains(p) && forall|g: int, k: int|
        0 <= g < f && 0 <= k < t[g].len() ==> #[trigger] pass_of(u, g, t[g][k]) != p)) by {
        if seen.contains(p) && !initial_used(u).contains(p) {
            let (g, k) = choose|g: int, k: int|
                0 <= g < tf.len() && 0 <= k < tf[g].len() && #[trigger] pass_of(u, g, tf[g][k]) == p;
            assert(t[g] == tf[g]);
        }
        if exists|g: int, k: int| 0 <= g < f && 0 <= k < t[g].len() && #[trigger] pass_of(u, g, t[g][k]) == p {
            let (g, k) = choose|g: int, k: int|
                0 <= g < f && 0 <= k < t[g].len() && #[trigger] pass_of(u, g, t[g][k]) == p;
            assert(t[g] == tf[g]);
            assert(pass_of(u, g, tf[g][k]) == p);
        }
    }
}

} // verus!
