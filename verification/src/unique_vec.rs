//! The unique layers: one layer for each function that a single layer can
//! compute, in the order of the first configuration that computes it.
use vstd::prelude::*;
use crate::constants::{STATES, TARGET, identity_table, is_signal_table};
use crate::search::layers_ok;
use crate::layer::{
    comparator, contains_layer, groups, layers_view, spec_comparator, spec_groups,
};

verus! {

/// The larger of two integers.
pub open spec fn larger(a: int, b: int) -> int {
    if a >= b {
        a
    } else {
        b
    }
}

/// The table of the layer with configuration `i` (`0 <= i < 1024`): bit 9
/// puts the first comparator in subtract mode, bit 8 the second, bits 4..8
/// are the first side barrel and bits 0..4 the second back barrel.
pub open spec fn config_layer(i: int) -> Seq<i16> {
    let ma = i / 512 == 1;
    let mb = (i / 256) % 2 == 1;
    let va = (i / 16) % 16;
    let vb = i % 16;
    Seq::new(16, |j: int| larger(spec_comparator(j, va, ma), spec_comparator(vb, j, mb)) as i16)
}

/// The distinct layer tables among configurations `0..n` that have at
/// least as many groups as the target, each where it first occurs.
pub open spec fn unique_upto(n: int) -> Seq<Seq<i16>>
    decreases n,
{
    if n <= 0 {
        Seq::empty()
    } else {
        let prev = unique_upto(n - 1);
        let l = config_layer(n - 1);
        if !prev.contains(l) && spec_groups(l) >= spec_groups(TARGET@) {
            prev.push(l)
        } else {
            prev
        }
    }
}

/// `i` is the first configuration whose layer computes `l`.
pub open spec fn is_first_config(l: Seq<i16>, i: int) -> bool {
    &&& 0 <= i < 1024
    &&& config_layer(i) == l
    &&& forall|j: int| 0 <= j < i ==> #[trigger] config_layer(j) != l
}

/// What `generate_unique` returns: the unique layers without the identity,
/// which configuration `0` computes.
pub open spec fn spec_unique() -> Seq<Seq<i16>> {
    unique_upto(1024).drop_first()
}

pub proof fn lemma_identity_groups()
    ensures
        spec_groups(identity_table()) == 16,
        spec_groups(TARGET@) <= 16,
{
    let id = identity_table();
    assert(id.no_duplicates());
    id.unique_seq_to_set();
    TARGET@.lemma_cardinality_of_set();
}

pub proof fn lemma_config_zero_is_identity()
    ensures
        config_layer(0) == identity_table(),
{
    assert(config_layer(0) =~= identity_table());
}

pub proof fn lemma_unique_upto_nonempty(n: int)
    requires
        n >= 1,
    ensures
        unique_upto(n).len() >= 1,
        unique_upto(n)[0] == identity_table(),
    decreases n,
{
    if n == 1 {
        lemma_config_zero_is_identity();
        lemma_identity_groups();
        assert(unique_upto(0) == Seq::<Seq<i16>>::empty());
    } else {
        lemma_unique_upto_nonempty(n - 1);
    }
}

/// A layer of some configuration below `n` with enough groups.
pub open spec fn reachable_below(l: Seq<i16>, n: int) -> bool {
    &&& spec_groups(l) >= spec_groups(TARGET@)
    &&& exists|i: int| 0 <= i < n && #[trigger] config_layer(i) == l
}

pub proof fn lemma_unique_upto_props(n: int)
    requires
        n >= 0,
    ensures
        unique_upto(n).no_duplicates(),
        forall|l: Seq<i16>| #[trigger] unique_upto(n).contains(l) <==> reachable_below(l, n),
    decreases n,
{
    if n > 0 {
        lemma_unique_upto_props(n - 1);
        let prev = unique_upto(n - 1);
        let l = config_layer(n - 1);
        assert forall|x: Seq<i16>| #[trigger] unique_upto(n).contains(x) <==> reachable_below(x, n) by {
            if unique_upto(n).contains(x) {
                if prev.contains(x) {
                    assert(reachable_below(x, n - 1));
                    let i = choose|i: int| 0 <= i < n - 1 && #[trigger] config_layer(i) == x;
                    assert(0 <= i < n && config_layer(i) == x);
                } else {
                    assert(unique_upto(n) == prev.push(l));
                    let k = choose|k: int| 0 <= k < unique_upto(n).len() && unique_upto(n)[k] == x;
                    assert(k == prev.len());
                    assert(config_layer(n - 1) == x);
                }
            }
            if reachable_below(x, n) {
                let i = choose|i: int| 0 <= i < n && #[trigger] config_layer(i) == x;
                if i < n - 1 {
                    assert(reachable_below(x, n - 1));
                    assert(prev.contains(x));
                    if unique_upto(n) != prev {
                        assert(unique_upto(n) == prev.push(l));
                        let k = choose|k: int| 0 <= k < prev.len() && prev[k] == x;
                        assert(unique_upto(n)[k] == x);
                    }
                } else {
                    if !prev.contains(x) {
                        assert(unique_upto(n) == prev.push(l));
                        assert(unique_upto(n)[prev.len() as int] == x);
                    }
                }
            }
        }
        if unique_upto(n) != prev {
            let u = unique_upto(n);
            assert(u == prev.push(l));
            assert forall|a: int, b: int| 0 <= a < u.len() && 0 <= b < u.len() && a != b implies u[a]
                != u[b] by {
                if a == prev.len() {
                    assert(prev.contains(u[b]));
                } else if b == prev.len() {
                    assert(prev.contains(u[a]));
                }
            }
        }
    }
}

/// The unique layers hold each function once, hold exactly the functions
/// other than the identity that some single layer computes with at least as
/// many groups as the target, and come in the order of the first
/// configuration that computes each.
pub proof fn lemma_unique_layers()
    ensures
        spec_unique().no_duplicates(),
        forall|l: Seq<i16>| #[trigger]
            spec_unique().contains(l) <==> (l != identity_table() && reachable_below(l, 1024)),
        forall|k1: int, k2: int, i1: int, i2: int|
            0 <= k1 < k2 < spec_unique().len() && is_first_config(spec_unique()[k1], i1)
                && is_first_config(spec_unique()[k2], i2) ==> i1 < i2,
{
    lemma_unique_upto_props(1024);
    lemma_unique_upto_order(1024);
    lemma_unique_upto_nonempty(1024);
    let u = unique_upto(1024);
    let s = spec_unique();
    assert forall|k1: int, k2: int, i1: int, i2: int|
        0 <= k1 < k2 < s.len() && is_first_config(s[k1], i1)
            && is_first_config(s[k2], i2) implies i1 < i2 by {
        assert(s[k1] == u[k1 + 1]);
        assert(s[k2] == u[k2 + 1]);
    }
    assert forall|l: Seq<i16>| #[trigger] s.contains(l) <==> (l != identity_table() && reachable_below(l, 1024)) by {
        if s.contains(l) {
            let k = choose|k: int| 0 <= k < s.len() && s[k] == l;
            assert(u[k + 1] == l);
            assert(u.contains(l));
        }
        if l != identity_table() && reachable_below(l, 1024) {
            assert(u.contains(l));
            let k = choose|k: int| 0 <= k < u.len() && u[k] == l;
            assert(k != 0);
            assert(s[k - 1] == l);
        }
    }
}

/// The table of the layer with configuration `i`.
pub fn config_table(i: i16) -> (current: [i16; 16])
    requires
        0 <= i < 1024,
    ensures
        current@ == config_layer(i as int),
{
    let ma = i / (2 * STATES * STATES) == 1;
    let mb = (i / (STATES * STATES)) % 2 == 1;
    let va = (i / STATES) % STATES;
    let vb = i % STATES;
    let mut current: [i16; 16] = [0i16; 16];
    let mut j: i16 = 0;
    while j < STATES
        invariant
            0 <= j <= 16,
            0 <= i < 1024,
            ma == (i / 512 == 1),
            mb == ((i / 256) % 2 == 1),
            va == (i / 16) % 16,
            vb == i % 16,
            forall|k: int| 0 <= k < j ==> #[trigger] current@[k] == config_layer(i as int)[k],
        decreases 16 - j,
    {
        // A single input passing through a layer: the larger of the two comparators.
        current[j as usize] = comparator(j, va, ma).max(comparator(vb, j, mb));
        j += 1;
    }
    assert(current@ =~= config_layer(i as int));
    current
}

/// Every single layer outputs signal strengths.
pub proof fn lemma_config_layer_signal(i: int)
    requires
        0 <= i < 1024,
    ensures
        is_signal_table(config_layer(i)),
{
}

/// Every unique layer outputs signal strengths.
pub proof fn lemma_unique_signal(outputs: Seq<[i16; 16]>)
    requires
        layers_view(outputs) == spec_unique(),
    ensures
        layers_ok(outputs),
{
    lemma_unique_layers();
    assert forall|u: int| 0 <= u < outputs.len() implies is_signal_table(#[trigger] outputs[u]@) by {
        assert(layers_view(outputs)[u] == outputs[u]@);
        assert(spec_unique().contains(outputs[u]@));
        let i = choose|i: int| 0 <= i < 1024 && #[trigger] config_layer(i) == outputs[u]@;
        lemma_config_layer_signal(i);
    }
}

/// The unique layers come in the order of the first configuration that
/// computes each of them.
pub proof fn lemma_unique_upto_order(n: int)
    requires
        0 <= n <= 1024,
    ensures
        forall|k1: int, k2: int, i1: int, i2: int|
            0 <= k1 < k2 < unique_upto(n).len() && is_first_config(unique_upto(n)[k1], i1)
                && is_first_config(unique_upto(n)[k2], i2) ==> i1 < i2,
        forall|k: int, i: int|
            0 <= k < unique_upto(n).len() && #[trigger] is_first_config(unique_upto(n)[k], i) ==> i < n,
    decreases n,
{
    if n > 0 {
        lemma_unique_upto_order(n - 1);
        lemma_unique_upto_props(n - 1);
        let prev = unique_upto(n - 1);
        let l = config_layer(n - 1);
        let cur = unique_upto(n);
        assert forall|k: int, i: int|
            0 <= k < cur.len() && #[trigger] is_first_config(cur[k], i) implies i < n by {
            if k < prev.len() {
                assert(cur[k] == prev[k]);
            } else {
                assert(cur[k] == l);
            }
        }
        if cur != prev {
            assert(cur == prev.push(l));
            assert forall|k1: int, k2: int, i1: int, i2: int|
                0 <= k1 < k2 < cur.len() && is_first_config(cur[k1], i1) && is_first_config(cur[k2], i2)
                    implies i1 < i2 by {
                assert(cur[k1] == prev[k1]);
                if k2 < prev.len() {
                    assert(cur[k2] == prev[k2]);
                } else {
                    assert(cur[k2] == l);
                    assert(i1 < n - 1);
                    if i2 < n - 1 {
                        assert(config_layer(i2) == l);
                        assert(reachable_below(l, n - 1));
                        assert(prev.contains(l));
                    }
                }
            }
        }
    }
}

/// Generates the vector of unique layers.
pub fn generate_unique() -> (outputs: Vec<[i16; 16]>)
    ensures
        layers_view(outputs@) == spec_unique(),
        layers_ok(outputs@),
{
    let target_groups = groups(TARGET);
    let mut outputs: Vec<[i16; 16]> = Vec::new();
    let mut i: i16 = 0;
    while i < 4 * STATES * STATES
        invariant
            0 <= i <= 1024,
            target_groups == spec_groups(TARGET@),
            layers_view(outputs@) == unique_upto(i as int),
        decreases 1024 - i,
    {
        let current = config_table(i);
        let ghost before = outputs@;
        if !contains_layer(&outputs, &current) && groups(current) >= target_groups {
            outputs.push(current);
            assert(layers_view(outputs@) =~= layers_view(before).push(current@));
        }
        i += 1;
    }
    proof {
        lemma_unique_upto_nonempty(1024);
    }
    outputs.remove(0);
    assert(layers_view(outputs@) =~= spec_unique());
    proof {
        lemma_unique_signal(outputs@);
    }
    outputs
}

} // verus!
