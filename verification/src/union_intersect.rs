//! Union-intersection: for every input and output value, the set of ending
//! layers that send that output value to the target's value for the input;
//! a function reaches the target in one more layer exactly when the sets
//! picked out by its outputs share a layer.
use vstd::prelude::*;
use bit_vec::BitVec;
use crate::bits::{
    bit_contents, bitvec_and, bitvec_from_elem, bitvec_len, bitvec_new, bitvec_none, bitvec_push,
};
use crate::constants::{STATES, TARGET, is_signal_table};
use crate::layer::compose;

verus! {

/// Whether a table holds the value `v`.
pub fn layer_contains(l: &[i16; 16], v: i16) -> (found: bool)
    ensures
        found == l@.contains(v),
{
    for k in 0..16usize
        invariant
            forall|j: int| 0 <= j < k ==> l@[j] != v,
    {
        if l[k] == v {
            return true;
        }
    }
    false
}

/// The target's output values, in increasing order.
pub open spec fn target_values() -> Seq<i16> {
    Seq::new(16, |i: int| i as i16).filter(|v: i16| TARGET@.contains(v))
}

/// The list of target values that `ending_layers` keeps while it walks the
/// first `k` layers: each layer that lacks one of them drops the last one.
pub open spec fn values_left(unique: Seq<[i16; 16]>, k: int) -> Seq<i16>
    decreases k,
{
    if k <= 0 {
        target_values()
    } else {
        let left = values_left(unique, k - 1);
        if exists|j: int| 0 <= j < left.len() && !unique[k - 1]@.contains(#[trigger] left[j]) {
            left.drop_last()
        } else {
            left
        }
    }
}

/// Lists the layer indices `0..mcount` that may end a chain.
pub fn ending_layers(mcount: &usize, unique: &Vec<[i16; 16]>) -> (endings: Vec<usize>)
    requires
        *mcount <= unique.len() || values_left(unique@, unique.len() as int).len() == 0,
    ensures
        endings@ == Seq::new(*mcount as nat, |i: int| i as usize),
{
    let mut target_outputs: Vec<i16> = Vec::new();
    let mut i: i16 = 0;
    while i < STATES
        invariant
            0 <= i <= 16,
            target_outputs@ == Seq::new(i as nat, |v: int| v as i16).filter(|v: i16| TARGET@.contains(v)),
        decreases 16 - i,
    {
        if layer_contains(&TARGET, i) {
            target_outputs.push(i);
        }
        proof {
            let s = Seq::new((i + 1) as nat, |v: int| v as i16);
            assert(s.drop_last() =~= Seq::new(i as nat, |v: int| v as i16));
            reveal_with_fuel(Seq::filter, 1);
        }
        i += 1;
    }
    let mut endings: Vec<usize> = Vec::new();
    let mut k: usize = 0;
    while k < *mcount
        invariant
            k <= *mcount,
            *mcount <= unique.len() || values_left(unique@, unique.len() as int).len() == 0,
            target_outputs@ == values_left(unique@, k as int),
            endings@ == Seq::new(k as nat, |x: int| x as usize),
        decreases *mcount - k,
    {
        endings.push(k);
        let ghost left = target_outputs@;
        if target_outputs.len() > 0 {
            proof {
                if k >= unique.len() {
                    lemma_values_left_stay_empty(unique@, unique.len() as int, k as int);
                }
            }
            let mut j: usize = 0;
            while j < target_outputs.len()
                invariant_except_break
                    target_outputs@ == left,
                invariant
                    left == values_left(unique@, k as int),
                    left.len() > 0,
                    j <= left.len(),
                    k < unique.len(),
                    forall|x: int| 0 <= x < j ==> unique@[k as int]@.contains(#[trigger] left[x]),
                ensures
                    target_outputs@ == values_left(unique@, k + 1),
                decreases left.len() - j,
            {
                if !layer_contains(&unique[k], target_outputs[j]) {
                    target_outputs.pop();
                    proof {
                        assert(!unique@[k as int]@.contains(left[j as int]));
                        assert(values_left(unique@, k + 1) == left.drop_last());
                    }
                    break;
                }
                j += 1;
            }
        } else {
            assert(values_left(unique@, k + 1) == left);
        }
        proof {
            assert(endings@ =~= Seq::new((k + 1) as nat, |x: int| x as usize));
        }
        k += 1;
    }
    endings
}

pub proof fn lemma_values_left_stay_empty(unique: Seq<[i16; 16]>, a: int, b: int)
    requires
        0 <= a <= b,
        values_left(unique, a).len() == 0,
    ensures
        values_left(unique, b).len() == 0,
    decreases b - a,
{
    if a < b {
        lemma_values_left_stay_empty(unique, a, b - 1);
    }
}

/// The bits of a table of bit vectors.
pub open spec fn union_bits(u: Seq<Vec<BitVec>>) -> Seq<Seq<Seq<bool>>> {
    Seq::new(u.len(), |i: int| Seq::new(u[i]@.len(), |j: int| bit_contents(u[i]@[j])))
}

/// Entry `[input][output]` has bit `k` set when ending layer `k` sends
/// `output` to the target's value for `input`.
pub open spec fn spec_union(endings: Seq<usize>, unique: Seq<[i16; 16]>) -> Seq<Seq<Seq<bool>>> {
    Seq::new(
        16,
        |input: int|
            Seq::new(
                16,
                |output: int|
                    Seq::new(
                        endings.len(),
                        |k: int| unique[endings[k] as int]@[output] == TARGET@[input],
                    ),
            ),
    )
}

/// Bit `k` is set in the entries that the first `n` outputs pick out.
pub open spec fn picked_upto(output: Seq<i16>, u: Seq<Seq<Seq<bool>>>, k: int, n: int) -> bool {
    forall|x: int| 0 <= x < n ==> #[trigger] u[x][output[x] as int][k]
}

/// Some bit is set in every entry that the outputs pick out.
pub open spec fn spec_intersect(output: Seq<i16>, u: Seq<Seq<Seq<bool>>>) -> bool {
    exists|k: int| 0 <= k < u[0][0].len() && #[trigger] picked_upto(output, u, k, 16)
}

/// Generates the table used to check whether a function can reach the target
/// with one more layer.
pub fn generate_union(endings: &Vec<usize>, unique: &Vec<[i16; 16]>) -> (union: Vec<Vec<BitVec>>)
    requires
        forall|k: int| 0 <= k < endings.len() ==> #[trigger] endings@[k] < unique.len(),
    ensures
        union_bits(union@) == spec_union(endings@, unique@),
{
    let mut union: Vec<Vec<BitVec>> = Vec::new();
    for input in 0..16usize
        invariant
            forall|k: int| 0 <= k < endings.len() ==> #[trigger] endings@[k] < unique.len(),
            union_bits(union@) == spec_union(endings@, unique@).take(input as int),
    {
        let mut row: Vec<BitVec> = Vec::new();
        for output in 0..16usize
            invariant
                input < 16,
                forall|k: int| 0 <= k < endings.len() ==> #[trigger] endings@[k] < unique.len(),
                row@.len() == output,
                forall|j: int|
                    0 <= j < output ==> #[trigger] bit_contents(row@[j]) == spec_union(
                        endings@,
                        unique@,
                    )[input as int][j],
        {
            let mut bits = bitvec_new();
            for e in 0..endings.len()
                invariant
                    input < 16,
                    output < 16,
                    forall|k: int| 0 <= k < endings.len() ==> #[trigger] endings@[k] < unique.len(),
                    bit_contents(bits) == spec_union(endings@, unique@)[input as int][output as int].take(
                        e as int,
                    ),
            {
                let layer = endings[e];
                bitvec_push(&mut bits, unique[layer][output] == TARGET[input]);
                assert(bit_contents(bits) =~= spec_union(endings@, unique@)[input as int][output as int].take(
                    e + 1,
                ));
            }
            assert(spec_union(endings@, unique@)[input as int][output as int].take(endings.len() as int)
                =~= spec_union(endings@, unique@)[input as int][output as int]);
            row.push(bits);
        }
        let ghost before = union@;
        let ghost row_view = row@;
        union.push(row);
        proof {
            assert(union_bits(before).len() == input);
            assert(union@[input as int]@ == row_view);
            assert(union_bits(union@) =~= spec_union(endings@, unique@).take(input + 1)) by {
                assert forall|i: int| 0 <= i < input + 1 implies #[trigger] union_bits(union@)[i]
                    == spec_union(endings@, unique@)[i] by {
                    if i < input {
                        assert(union@[i] == before[i]);
                        assert(union_bits(before)[i] == spec_union(endings@, unique@)[i]);
                    } else {
                        assert forall|j: int| 0 <= j < 16 implies #[trigger] union_bits(union@)[i][j]
                            == spec_union(endings@, unique@)[i][j] by {
                            assert(bit_contents(row_view[j]) == spec_union(endings@, unique@)[input as int][j]);
                        }
                        assert(union_bits(union@)[i] =~= spec_union(endings@, unique@)[i]);
                    }
                }
            }
        }
    }
    assert(spec_union(endings@, unique@).take(16) =~= spec_union(endings@, unique@));
    union
}

/// Checks whether some bit is set in every entry of `union` that the
/// outputs pick out: whether the function `output` reaches the target in
/// one more layer.
pub fn intersect_check(output: [i16; 16], union: &Vec<Vec<BitVec>>) -> (found: bool)
    requires
        union.len() == 16,
        forall|i: int| 0 <= i < 16 ==> (#[trigger] union@[i])@.len() == 16,
        forall|i: int| 0 <= i < 16 ==> 0 <= #[trigger] output@[i] < 16,
        forall|i: int|
            0 <= i < 16 ==> (#[trigger] union_bits(union@)[i][output@[i] as int]).len()
                == union_bits(union@)[0][0].len(),
    ensures
        found == spec_intersect(output@, union_bits(union@)),
{
    let ghost u = union_bits(union@);
    let n = bitvec_len(&union[0][0]);
    let mut inter = bitvec_from_elem(n, true);
    for i in 0..16usize
        invariant
            union.len() == 16,
            u == union_bits(union@),
            forall|x: int| 0 <= x < 16 ==> (#[trigger] union@[x])@.len() == 16,
            forall|x: int| 0 <= x < 16 ==> 0 <= #[trigger] output@[x] < 16,
            forall|x: int| 0 <= x < 16 ==> (#[trigger] u[x][output@[x] as int]).len() == n,
            bit_contents(inter).len() == n,
            forall|k: int|
                0 <= k < n ==> #[trigger] bit_contents(inter)[k] == picked_upto(output@, u, k, i as int),
    {
        let column = output[i] as usize;
        assert(u[i as int][column as int] == bit_contents(union@[i as int]@[column as int]));
        let _ = bitvec_and(&mut inter, &union[i][column]);
    }
    let none = bitvec_none(&inter);
    proof {
        if spec_intersect(output@, u) {
            let k = choose|k: int| 0 <= k < u[0][0].len() && #[trigger] picked_upto(output@, u, k, 16);
            assert(bit_contents(inter)[k]);
        }
        if !none {
            let k = choose|k: int| 0 <= k < bit_contents(inter).len() && bit_contents(inter)[k];
            assert(picked_upto(output@, u, k, 16));
        }
    }
    !none
}

/// A function reaches the target in one more layer among the endings
/// exactly when `intersect_check` finds a common layer in the table that
/// `generate_union` builds.
pub proof fn lemma_union_intersect(output: Seq<i16>, endings: Seq<usize>, unique: Seq<[i16; 16]>)
    requires
        is_signal_table(output),
    ensures
        spec_intersect(output, spec_union(endings, unique)) <==> exists|k: int|
            0 <= k < endings.len() && #[trigger] compose(unique[endings[k] as int]@, output)
                == TARGET@,
{
    let u = spec_union(endings, unique);
    if spec_intersect(output, u) {
        let k = choose|k: int| 0 <= k < u[0][0].len() && #[trigger] picked_upto(output, u, k, 16);
        assert(compose(unique[endings[k] as int]@, output) =~= TARGET@) by {
            assert forall|i: int| 0 <= i < 16 implies compose(unique[endings[k] as int]@, output)[i]
                == TARGET@[i] by {
                assert(u[i][output[i] as int][k]);
            }
        }
    }
    if exists|k: int|
        0 <= k < endings.len() && #[trigger] compose(unique[endings[k] as int]@, output) == TARGET@ {
        let k = choose|k: int|
            0 <= k < endings.len() && #[trigger] compose(unique[endings[k] as int]@, output) == TARGET@;
        assert forall|i: int| 0 <= i < 16 implies #[trigger] u[i][output[i] as int][k] by {
            assert(compose(unique[endings[k] as int]@, output)[i] == TARGET@[i]);
        }
        assert(0 <= k < u[0][0].len());
        assert(picked_upto(output, u, k, 16));
    }
}

} // verus!
