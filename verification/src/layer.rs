use vstd::prelude::*;
use crate::constants::{TARGET, identity_table, is_signal_table};

verus! {

/// What a comparator outputs: nothing when the side is stronger than the
/// back, the difference in subtract mode, the back in compare mode.
pub open spec fn spec_comparator(back: int, side: int, mode: bool) -> int {
    if side > back {
        0
    } else if mode {
        back - side
    } else {
        back
    }
}

/// A Minecraft redstone comparator.
pub fn comparator(back: i16, side: i16, mode: bool) -> (out: i16)
    requires
        mode && side <= back ==> back - side <= i16::MAX,
    ensures
        out == spec_comparator(back as int, side as int, mode),
        back >= 0 ==> out >= 0,
{
    if side > back {
        return 0;
    } else if mode {
        return back - side;
    } else {
        return back;
    }
}

/// Passing `input` through `layer`: output `i` is `layer[input[i]]`.
pub open spec fn compose(layer: Seq<i16>, input: Seq<i16>) -> Seq<i16> {
    Seq::new(input.len(), |i: int| layer[input[i] as int])
}

/// Passes the input through the provided layer.
pub fn through(layer: [i16; 16], input: [i16; 16]) -> (output: [i16; 16])
    requires
        forall|i: int| 0 <= i < 16 ==> 0 <= #[trigger] input@[i] < 16,
    ensures
        output@ == compose(layer@, input@),
{
    let mut output: [i16; 16] = [0i16; 16];
    for i in 0..16usize
        invariant
            forall|j: int| 0 <= j < 16 ==> 0 <= #[trigger] input@[j] < 16,
            forall|j: int| 0 <= j < i ==> #[trigger] output@[j] == layer@[input@[j] as int],
    {
        output[i] = layer[input[i] as usize];
    }
    assert(output@ =~= compose(layer@, input@));
    output
}

/// The number of distinct outputs of a table: its "groups".
pub open spec fn spec_groups(s: Seq<i16>) -> nat {
    s.to_set().len()
}

/// Passing a table through a layer never adds groups: an intermediate
/// output with fewer groups than the target cannot reach it.
pub proof fn lemma_groups_through(layer: Seq<i16>, input: Seq<i16>)
    ensures
        spec_groups(compose(layer, input)) <= spec_groups(input),
{
    let f = |v: i16| layer[v as int];
    let out = compose(layer, input);
    assert(out.to_set() =~= input.to_set().map(f)) by {
        assert forall|x: i16| out.to_set().contains(x) implies input.to_set().map(f).contains(x) by {
            let k = choose|k: int| 0 <= k < out.len() && out[k] == x;
            assert(input.to_set().contains(input[k]));
        }
        assert forall|x: i16| input.to_set().map(f).contains(x) implies out.to_set().contains(x) by {
            let v = choose|v: i16| input.to_set().contains(v) && f(v) == x;
            let k = choose|k: int| 0 <= k < input.len() && input[k] == v;
            assert(out[k] == x);
        }
    }
    vstd::seq_lib::seq_to_set_is_finite(input);
    vstd::set_lib::lemma_map_size_bound(input.to_set(), out.to_set(), f);
}

/// A table that a layer turns into the target has at least as many groups
/// as the target.
pub proof fn lemma_reaching_target_needs_groups(layer: Seq<i16>, input: Seq<i16>)
    requires
        compose(layer, input) == TARGET@,
    ensures
        spec_groups(input) >= spec_groups(TARGET@),
{
    lemma_groups_through(layer, input);
}

/// Passing through layers composes: `through(a, through(b, x))` is
/// `through(through(a, b), x)`.
pub proof fn lemma_compose_associative(a: Seq<i16>, b: Seq<i16>, x: Seq<i16>)
    requires
        forall|i: int| 0 <= i < x.len() ==> 0 <= #[trigger] x[i] < b.len(),
    ensures
        compose(a, compose(b, x)) == compose(compose(a, b), x),
{
    assert(compose(a, compose(b, x)) =~= compose(compose(a, b), x));
}

/// The identity table is neutral on both sides.
pub proof fn lemma_compose_identity(l: Seq<i16>)
    requires
        is_signal_table(l),
    ensures
        compose(identity_table(), l) == l,
        compose(l, identity_table()) == l,
{
    assert(compose(identity_table(), l) =~= l);
    assert(compose(l, identity_table()) =~= l);
}

/// Whether `v` holds `x`.
pub fn contains_value(v: &Vec<i16>, x: i16) -> (found: bool)
    ensures
        found == v@.contains(x),
{
    for k in 0..v.len()
        invariant
            forall|j: int| 0 <= j < k ==> v@[j] != x,
    {
        if v[k] == x {
            return true;
        }
    }
    false
}

/// Whether two tables are equal.
pub fn same_layer(a: &[i16; 16], b: &[i16; 16]) -> (eq: bool)
    ensures
        eq == (a@ == b@),
{
    for k in 0..16usize
        invariant
            forall|j: int| 0 <= j < k ==> a@[j] == b@[j],
    {
        if a[k] != b[k] {
            return false;
        }
    }
    assert(a@ =~= b@);
    true
}

/// The tables of a list, as sequences.
pub open spec fn layers_view(v: Seq<[i16; 16]>) -> Seq<Seq<i16>> {
    v.map_values(|l: [i16; 16]| l@)
}

/// Whether `v` holds the table `l`.
pub fn contains_layer(v: &Vec<[i16; 16]>, l: &[i16; 16]) -> (found: bool)
    ensures
        found == layers_view(v@).contains(l@),
{
    for k in 0..v.len()
        invariant
            forall|j: int| 0 <= j < k ==> v@[j]@ != l@,
    {
        if same_layer(&v[k], l) {
            assert(layers_view(v@)[k as int] == l@);
            return true;
        }
    }
    proof {
        if layers_view(v@).contains(l@) {
            let j = choose|j: int| 0 <= j < layers_view(v@).len() && layers_view(v@)[j] == l@;
            assert(v@[j]@ == l@);
        }
    }
    false
}

/// Counts the distinct outputs of a table.
pub fn groups(layer: [i16; 16]) -> (n: usize)
    ensures
        n == spec_groups(layer@),
{
    let mut seen: Vec<i16> = Vec::new();
    for j in 0..16usize
        invariant
            seen@.no_duplicates(),
            seen@.to_set() == layer@.take(j as int).to_set(),
            seen.len() <= j,
    {
        let x = layer[j];
        let ghost before = seen@;
        assert(layer@.take(j + 1) =~= layer@.take(j as int).push(x));
        proof {
            layer@.take(j as int).lemma_push_to_set_commute(x);
        }
        if !contains_value(&seen, x) {
            seen.push(x);
            proof {
                before.lemma_push_to_set_commute(x);
                assert forall|a: int, b: int| 0 <= a < b < seen@.len() implies seen@[a] != seen@[b] by {
                    if b == before.len() {
                        assert(before.contains(before[a]));
                    }
                }
            }
        } else {
            assert(seen@.to_set().contains(x));
            assert(seen@.to_set().insert(x) =~= seen@.to_set());
        }
    }
    assert(layer@.take(16) =~= layer@);
    proof {
        seen@.unique_seq_to_set();
    }
    seen.len()
}

/// The function computed by the first `n` layers of `count`, in order.
pub open spec fn compose_all(unique: Seq<[i16; 16]>, count: Seq<[usize; 2]>, n: int) -> Seq<i16>
    decreases n,
{
    if n <= 0 {
        identity_table()
    } else {
        compose(unique[count[n - 1][0] as int]@, compose_all(unique, count, n - 1))
    }
}

/// Ending `k` turns `cur` into the target.
pub open spec fn ends_at_target(
    unique: Seq<[i16; 16]>,
    endings: Seq<usize>,
    cur: Seq<i16>,
    k: int,
) -> bool {
    compose(unique[endings[k] as int]@, cur) == TARGET@
}

pub proof fn lemma_compose_all_signal(unique: Seq<[i16; 16]>, count: Seq<[usize; 2]>, n: int)
    requires
        0 <= n <= count.len(),
        forall|u: int| 0 <= u < unique.len() ==> is_signal_table(#[trigger] unique[u]@),
        forall|k: int| 0 <= k < count.len() ==> (#[trigger] count[k])[0] < unique.len(),
    ensures
        is_signal_table(compose_all(unique, count, n)),
    decreases n,
{
    if n > 0 {
        lemma_compose_all_signal(unique, count, n - 1);
        let prev = compose_all(unique, count, n - 1);
        let l = unique[count[n - 1][0] as int]@;
        assert(is_signal_table(l));
        assert forall|j: int| 0 <= j < 16 implies 0 <= #[trigger] compose(l, prev)[j] < 16 by {
            assert(0 <= prev[j] < 16);
        }
    }
}

/// Appends `[e, e]` to the chain for the first ending layer `e` that takes
/// the chain's function to the target, if there is one.
pub fn find_next(count: &Vec<[usize; 2]>, unique: &Vec<[i16; 16]>, endings: &Vec<usize>) -> (ncount: Vec<[usize; 2]>)
    requires
        forall|k: int| 0 <= k < count.len() ==> (#[trigger] count@[k])[0] < unique.len(),
        forall|k: int|
            0 <= k < count.len() ==> is_signal_table(#[trigger] compose_all(unique@, count@, k)),
        endings.len() > 0 ==> is_signal_table(compose_all(unique@, count@, count.len() as int)),
        forall|k: int| 0 <= k < endings.len() ==> #[trigger] endings@[k] < unique.len(),
    ensures
        ({
            let cur = compose_all(unique@, count@, count.len() as int);
            &&& ncount@.len() == count.len() ==> ncount@ == count@ && forall|k: int|
                0 <= k < endings.len() ==> !#[trigger] ends_at_target(unique@, endings@, cur, k)
            &&& ncount@.len() != count.len() ==> exists|k: int|
                0 <= k < endings.len() && #[trigger] ends_at_target(unique@, endings@, cur, k)
                    && (forall|k2: int|
                    0 <= k2 < k ==> !#[trigger] ends_at_target(unique@, endings@, cur, k2))
                    && ncount@.len() == count.len() + 1 && ncount@.take(count.len() as int)
                    == count@ && ncount@[count.len() as int][0] == endings@[k]
                    && ncount@[count.len() as int][1] == endings@[k]
        }),
{
    let ghost cur_spec = compose_all(unique@, count@, count.len() as int);
    let mut current: [i16; 16] = [0i16; 16];
    for i in 0..16usize
        invariant
            forall|j: int| 0 <= j < i ==> #[trigger] current@[j] == j,
    {
        current[i] = i as i16;
    }
    assert(current@ =~= identity_table());
    for c in 0..count.len()
        invariant
            forall|k: int| 0 <= k < count.len() ==> (#[trigger] count@[k])[0] < unique.len(),
            forall|k: int|
                0 <= k < count.len() ==> is_signal_table(#[trigger] compose_all(unique@, count@, k)),
            current@ == compose_all(unique@, count@, c as int),
    {
        current = through(unique[count[c][0]], current);
    }
    let mut ncount: Vec<[usize; 2]> = Vec::new();
    for c in 0..count.len()
        invariant
            ncount@ == count@.take(c as int),
    {
        ncount.push(count[c]);
        assert(ncount@ =~= count@.take(c + 1));
    }
    assert(ncount@ =~= count@);
    for e in 0..endings.len()
        invariant
            forall|k: int| 0 <= k < endings.len() ==> #[trigger] endings@[k] < unique.len(),
            current@ == cur_spec,
            cur_spec == compose_all(unique@, count@, count.len() as int),
            endings.len() > 0 ==> is_signal_table(cur_spec),
            ncount@ == count@,
            forall|k: int| 0 <= k < e ==> !#[trigger] ends_at_target(unique@, endings@, cur_spec, k),
    {
        let layer = endings[e];
        if same_layer(&through(unique[layer], current), &TARGET) {
            ncount.push([layer, layer]);
            proof {
                assert(ends_at_target(unique@, endings@, cur_spec, e as int));
                assert(ncount@.take(count.len() as int) =~= count@);
                assert(ncount@.len() == count.len() + 1);
                assert(ncount@[count.len() as int][0] == endings@[e as int]);
                assert(ncount@[count.len() as int][1] == endings@[e as int]);
            }
            return ncount;
        }
    }
    ncount
}

} // verus!
