//! Legality of intermediate outputs: two inputs that the target sends to
//! different outputs must never be merged by a prefix of the chain, since no
//! later layer can separate them again.
use vstd::prelude::*;
use crate::constants::{TARGET, is_signal_table};
use crate::layer::{compose, lemma_reaching_target_needs_groups, spec_groups};

verus! {

/// Every entry names two inputs, both below sixteen.
pub open spec fn is_legality_table(s: Seq<[usize; 2]>) -> bool {
    forall|k: int| 0 <= k < s.len() ==> (#[trigger] s[k])[0] < 16 && s[k][1] < 16
}

/// `current` keeps apart the two inputs of every entry of `legality`.
pub open spec fn spec_legal(current: Seq<i16>, legality: Seq<[usize; 2]>) -> bool {
    forall|k: int|
        0 <= k < legality.len() ==> current[(#[trigger] legality[k])[0] as int]
            != current[legality[k][1] as int]
}

/// `p` comes before `q` in the order of first input, then second input.
pub open spec fn pair_lt(p: [usize; 2], q: [usize; 2]) -> bool {
    p[0] < q[0] || (p[0] == q[0] && p[1] < q[1])
}

/// The inputs `a < b` that the target sends to different outputs.
pub open spec fn target_splits(a: int, b: int) -> bool {
    0 <= a < b < 16 && TARGET@[a] != TARGET@[b]
}

/// `s` lists every pair that the target splits, each once, in increasing
/// order, and nothing else.
pub open spec fn is_target_legality(s: Seq<[usize; 2]>) -> bool {
    &&& forall|k: int| 0 <= k < s.len() ==> target_splits((#[trigger] s[k])[0] as int, s[k][1] as int)
    &&& forall|a: int, b: int|
        target_splits(a, b) ==> exists|k: int|
            0 <= k < s.len() && (#[trigger] s[k])[0] == a && s[k][1] == b
    &&& forall|k1: int, k2: int| 0 <= k1 < k2 < s.len() ==> pair_lt(#[trigger] s[k1], #[trigger] s[k2])
}

/// `current` keeps apart every two inputs that the target keeps apart.
pub open spec fn separates_target(current: Seq<i16>) -> bool {
    forall|a: int, b: int| target_splits(a, b) ==> #[trigger] current[a] != #[trigger] current[b]
}

/// Lists the pairs of inputs `a < b` whose target outputs differ.
pub fn generate_legal() -> (legality: Vec<[usize; 2]>)
    ensures
        is_target_legality(legality@),
        is_legality_table(legality@),
{
    let mut legality: Vec<[usize; 2]> = Vec::new();
    for a in 0..16usize
        invariant
            forall|k: int|
                0 <= k < legality@.len() ==> target_splits(
                    (#[trigger] legality@[k])[0] as int,
                    legality@[k][1] as int,
                ) && legality@[k][0] < a,
            forall|x: int, y: int|
                x < a && target_splits(x, y) ==> exists|k: int|
                    0 <= k < legality@.len() && (#[trigger] legality@[k])[0] == x && legality@[k][1]
                        == y,
            forall|k1: int, k2: int|
                0 <= k1 < k2 < legality@.len() ==> pair_lt(
                    #[trigger] legality@[k1],
                    #[trigger] legality@[k2],
                ),
    {
        for b in a + 1..16usize
            invariant
                a < 16,
                forall|k: int|
                    0 <= k < legality@.len() ==> target_splits(
                        (#[trigger] legality@[k])[0] as int,
                        legality@[k][1] as int,
                    ) && (legality@[k][0] < a || (legality@[k][0] == a && legality@[k][1] < b)),
                forall|x: int, y: int|
                    (x < a || (x == a && y < b)) && target_splits(x, y) ==> exists|k: int|
                        0 <= k < legality@.len() && (#[trigger] legality@[k])[0] == x
                            && legality@[k][1] == y,
                forall|k1: int, k2: int|
                    0 <= k1 < k2 < legality@.len() ==> pair_lt(
                        #[trigger] legality@[k1],
                        #[trigger] legality@[k2],
                    ),
        {
            if TARGET[a] != TARGET[b] {
                let ghost before = legality@;
                legality.push([a, b]);
                proof {
                    let n = before.len() as int;
                    assert(legality@[n][0] == a && legality@[n][1] == b);
                    assert forall|x: int, y: int|
                        (x < a || (x == a && y < b + 1)) && target_splits(x, y) implies exists|k: int|
                        0 <= k < legality@.len() && (#[trigger] legality@[k])[0] == x
                            && legality@[k][1] == y by {
                        if x == a && y == b {
                            assert(legality@[n][0] == x && legality@[n][1] == y);
                        } else {
                            let k = choose|k: int|
                                0 <= k < before.len() && (#[trigger] before[k])[0] == x && before[k][1]
                                    == y;
                            assert(legality@[k] == before[k]);
                        }
                    }
                    assert forall|k1: int, k2: int|
                        0 <= k1 < k2 < legality@.len() implies pair_lt(
                        #[trigger] legality@[k1],
                        #[trigger] legality@[k2],
                    ) by {
                        assert(legality@[k1] == before[k1]);
                        if k2 < n {
                            assert(legality@[k2] == before[k2]);
                        }
                    }
                }
            }
        }
    }
    proof {
        lemma_target_legality_is_table(legality@);
    }
    legality
}

/// The entries of `legality` before `k` name inputs below sixteen that
/// `current` keeps apart.
pub open spec fn kept_apart_before(current: Seq<i16>, legality: Seq<[usize; 2]>, k: int) -> bool {
    forall|j: int|
        0 <= j < k ==> (#[trigger] legality[j])[0] < 16 && legality[j][1] < 16 && current[legality[j][0] as int]
            != current[legality[j][1] as int]
}

/// If any inputs are incorrectly mapped together, it is not legal.
pub fn legal(current: [i16; 16], legality: &Vec<[usize; 2]>) -> (ok: bool)
    requires
        forall|k: int|
            0 <= k < legality.len() && kept_apart_before(current@, legality@, k) ==> (
            #[trigger] legality@[k])[0] < 16 && legality@[k][1] < 16,
    ensures
        ok == spec_legal(current@, legality@),
{
    for k in 0..legality.len()
        invariant
            forall|k: int|
                0 <= k < legality.len() && kept_apart_before(current@, legality@, k) ==> (
                #[trigger] legality@[k])[0] < 16 && legality@[k][1] < 16,
            kept_apart_before(current@, legality@, k as int),
    {
        let pair = legality[k];
        if current[pair[0]] == current[pair[1]] {
            return false;
        }
    }
    true
}

/// With the table that `generate_legal` lists, `legal` holds exactly of the
/// outputs that keep apart every two inputs the target keeps apart.
pub proof fn lemma_legal_iff_separates(current: Seq<i16>, legality: Seq<[usize; 2]>)
    requires
        is_target_legality(legality),
        current.len() == 16,
    ensures
        spec_legal(current, legality) <==> separates_target(current),
{
    if spec_legal(current, legality) {
        assert forall|a: int, b: int| target_splits(a, b) implies #[trigger] current[a]
            != #[trigger] current[b] by {
            let k = choose|k: int|
                0 <= k < legality.len() && (#[trigger] legality[k])[0] == a && legality[k][1] == b;
        }
    }
    if separates_target(current) {
        assert forall|k: int| 0 <= k < legality.len() implies current[(#[trigger] legality[k])[0] as int]
            != current[legality[k][1] as int] by {
            let a = legality[k][0] as int;
            let b = legality[k][1] as int;
            assert(target_splits(a, b));
        }
    }
}

/// Inputs that a layer's input already merges stay merged after the layer:
/// an illegal intermediate output cannot become legal again.
pub proof fn lemma_legal_after_layer(layer: Seq<i16>, current: Seq<i16>, legality: Seq<[usize; 2]>)
    requires
        is_legality_table(legality),
        current.len() == 16,
        spec_legal(compose(layer, current), legality),
    ensures
        spec_legal(current, legality),
{
    assert forall|k: int| 0 <= k < legality.len() implies current[(#[trigger] legality[k])[0] as int]
        != current[legality[k][1] as int] by {
        let a = legality[k][0] as int;
        let b = legality[k][1] as int;
        assert(compose(layer, current)[a] != compose(layer, current)[b]);
    }
}

pub proof fn lemma_target_legality_is_table(legality: Seq<[usize; 2]>)
    requires
        is_target_legality(legality),
    ensures
        is_legality_table(legality),
{
    assert forall|k: int| 0 <= k < legality.len() implies (#[trigger] legality[k])[0] < 16
        && legality[k][1] < 16 by {
        assert(target_splits(legality[k][0] as int, legality[k][1] as int));
    }
}

/// The target itself is legal.
pub proof fn lemma_target_legal(legality: Seq<[usize; 2]>)
    requires
        is_target_legality(legality),
    ensures
        spec_legal(TARGET@, legality),
{
    assert forall|k: int| 0 <= k < legality.len() implies TARGET@[(#[trigger] legality[k])[0] as int]
        != TARGET@[legality[k][1] as int] by {
        assert(target_splits(legality[k][0] as int, legality[k][1] as int));
    }
}

/// An input that some layer turns into the target is legal.
pub proof fn lemma_reaching_target_is_legal(
    layer: Seq<i16>,
    current: Seq<i16>,
    legality: Seq<[usize; 2]>,
)
    requires
        is_target_legality(legality),
        is_signal_table(current),
        compose(layer, current) == TARGET@,
    ensures
        spec_legal(current, legality),
{
    lemma_target_legal(legality);
    lemma_target_legality_is_table(legality);
    lemma_legal_after_layer(layer, current, legality);
}

/// The table that sends each output value of `current` to the target's
/// value for an input with that output.
pub open spec fn finishing_table(current: Seq<i16>) -> Seq<i16> {
    Seq::new(
        16,
        |v: int|
            if exists|i: int| 0 <= i < 16 && current[i] == v {
                TARGET@[choose|i: int| 0 <= i < 16 && current[i] == v]
            } else {
                0
            },
    )
}

/// A legal table can always be finished: some table of sixteen values takes
/// it to the target.
pub proof fn lemma_legal_can_finish(current: Seq<i16>, legality: Seq<[usize; 2]>)
    requires
        is_target_legality(legality),
        is_signal_table(current),
        spec_legal(current, legality),
    ensures
        compose(finishing_table(current), current) == TARGET@,
{
    lemma_legal_iff_separates(current, legality);
    let g = finishing_table(current);
    assert forall|i: int| 0 <= i < 16 implies compose(g, current)[i] == TARGET@[i] by {
        let v = current[i] as int;
        assert(0 <= v < 16);
        assert(exists|k: int| 0 <= k < 16 && current[k] == v);
        let j = choose|k: int| 0 <= k < 16 && current[k] == v;
        assert(g[v] == TARGET@[j]);
        if TARGET@[j] != TARGET@[i] {
            if i < j {
                assert(target_splits(i, j));
            } else {
                assert(target_splits(j, i));
            }
        }
    }
    assert(compose(g, current) =~= TARGET@);
}

/// A legal table has at least as many distinct outputs as the target.
pub proof fn lemma_legal_has_target_groups(current: Seq<i16>, legality: Seq<[usize; 2]>)
    requires
        is_target_legality(legality),
        is_signal_table(current),
        spec_legal(current, legality),
    ensures
        spec_groups(current) >= spec_groups(TARGET@),
{
    lemma_legal_can_finish(current, legality);
    lemma_reaching_target_needs_groups(finishing_table(current), current);
}

proof fn lemma_pair_lt_trans(p: [usize; 2], q: [usize; 2], r: [usize; 2])
    requires
        pair_lt(p, q),
        pair_lt(q, r),
    ensures
        pair_lt(p, r),
{
}

proof fn lemma_legality_find(s: Seq<[usize; 2]>, p: [usize; 2]) -> (m: int)
    requires
        is_target_legality(s),
        target_splits(p[0] as int, p[1] as int),
    ensures
        0 <= m < s.len(),
        s[m] == p,
{
    let m = choose|k: int| 0 <= k < s.len() && (#[trigger] s[k])[0] == p[0] as int && s[k][1] == p[1] as int;
    assert(s[m] =~= p);
    m
}

/// Two lists that both meet the contract of `generate_legal` agree on their
/// first `k` entries.
proof fn lemma_target_legality_prefix(a: Seq<[usize; 2]>, b: Seq<[usize; 2]>, k: int)
    requires
        is_target_legality(a),
        is_target_legality(b),
        0 <= k <= a.len(),
        k <= b.len(),
    ensures
        forall|j: int| 0 <= j < k ==> a[j] == b[j],
    decreases k,
{
    if k > 0 {
        lemma_target_legality_prefix(a, b, k - 1);
        let j = k - 1;
        let m = lemma_legality_find(b, a[j]);
        if m < j {
            assert(a[m] == b[m]);
            assert(pair_lt(a[m], a[j]));
        } else if m > j {
            assert(pair_lt(b[j], b[m]));
            let m2 = lemma_legality_find(a, b[j]);
            if m2 < j {
                assert(a[m2] == b[m2]);
                assert(pair_lt(b[m2], b[j]));
            } else if m2 > j {
                assert(pair_lt(a[j], a[m2]));
                lemma_pair_lt_trans(b[j], a[j], b[j]);
            }
        }
    }
}

/// The list of pairs that the target splits is determined by the target:
/// any two lists meeting the contract of `generate_legal` are equal, so every
/// copy of the generator gives the same list.
pub proof fn lemma_target_legality_unique(a: Seq<[usize; 2]>, b: Seq<[usize; 2]>)
    requires
        is_target_legality(a),
        is_target_legality(b),
    ensures
        a == b,
{
    if a.len() > b.len() {
        lemma_target_legality_prefix(a, b, b.len() as int);
        let m = lemma_legality_find(b, a[b.len() as int]);
        assert(a[m] == b[m]);
        assert(pair_lt(a[m], a[b.len() as int]));
    } else if b.len() > a.len() {
        lemma_target_legality_prefix(a, b, a.len() as int);
        let m = lemma_legality_find(a, b[a.len() as int]);
        assert(a[m] == b[m]);
        assert(pair_lt(b[m], b[a.len() as int]));
    } else {
        lemma_target_legality_prefix(a, b, a.len() as int);
        assert(a =~= b);
    }
}

} // verus!
