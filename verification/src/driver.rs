//! The search loop's decisions: walk the chains with `next`, stop at the
//! first chain that computes the target, and, once the union-intersection
//! check says a chain reaches the target with one more layer, finish the
//! current depth before accepting that longer answer.
use vstd::prelude::*;
use bit_vec::BitVec;
use crate::constants::TARGET;
use crate::layer::{compose, same_layer};
use crate::legality::{is_target_legality, lemma_target_legal, lemma_target_legality_is_table, spec_legal};
use crate::order::{agree, lemma_lex_trichotomy, lex_lt};
use crate::search::{
    beyond, chain_output, lemma_chain_bounded, digits, has_illegal_prefix, layers_ok, lemma_chain_output_prefix,
    lemma_chain_output_signal, lemma_entries_agree, lemma_illegal_prefix_misses_target, lemma_legal_prefix_back,
    link_ok, next, next_outcome, pairs_wf, precedes, rows_view, same_parity, valid_chain,
};
use crate::union_intersect::{intersect_check, lemma_union_intersect, spec_intersect, spec_union, union_bits};

verus! {

/// Where the search stands.
pub struct SearchState {
    /// The chain being tested.
    pub count: Vec<[usize; 2]>,
    /// Its intermediate outputs.
    pub current: Vec<[i16; 16]>,
    /// Its length.
    pub depth: usize,
    /// The chain that one more layer completes, once one is found.
    pub candidate: Vec<[usize; 2]>,
    /// Whether such a chain has been found.
    pub next_layer: bool,
}

/// What a step of the search reports.
pub enum SearchEvent {
    /// The search goes on at the same depth.
    Searching,
    /// The search goes on at a new depth.
    NewDepth,
    /// The search is over: `candidate` holds the answer.
    Solved,
}

/// The chain of the first unique layer alone, where the search starts.
pub open spec fn is_first_chain(c: Seq<[usize; 2]>) -> bool {
    c.len() == 1 && c[0][0] == 0
}

/// The chain's function is not the target.
pub open spec fn misses_target(unique: Seq<[i16; 16]>, w: Seq<[usize; 2]>) -> bool {
    chain_output(unique, w, w.len() - 1) != TARGET@
}

/// No chain of the visited lengths before `c` in the search order, other
/// than the starting chain, computes the target.
pub open spec fn explored_before(
    unique: Seq<[i16; 16]>,
    ps: Seq<Seq<[usize; 2]>>,
    mcount: int,
    c: Seq<[usize; 2]>,
) -> bool {
    forall|w: Seq<[usize; 2]>|
        valid_chain(w, ps, mcount) && same_parity(w.len() as int, 1) && !is_first_chain(w)
            && #[trigger] precedes(w, c) ==> misses_target(unique, w)
}

/// The chain's function reaches the target with one more unique layer.
pub open spec fn one_layer_short(unique: Seq<[i16; 16]>, endings: Seq<usize>, w: Seq<[usize; 2]>) -> bool {
    spec_intersect(chain_output(unique, w, w.len() - 1), spec_union(endings, unique))
}

/// No chain of the visited lengths before `c` in the search order, other
/// than the starting chain, whose intermediate outputs are all legal,
/// reaches the target with one more layer.
pub open spec fn no_ending_before(
    unique: Seq<[i16; 16]>,
    ps: Seq<Seq<[usize; 2]>>,
    mcount: int,
    legality: Seq<[usize; 2]>,
    endings: Seq<usize>,
    c: Seq<[usize; 2]>,
) -> bool {
    forall|w: Seq<[usize; 2]>|
        valid_chain(w, ps, mcount) && same_parity(w.len() as int, 1) && !is_first_chain(w)
            && #[trigger] precedes(w, c) && !has_illegal_prefix(unique, w, legality)
            ==> !one_layer_short(unique, endings, w)
}

/// The chains of one or two layers that begin with the first unique layer:
/// the search starts past them and never tests them.
pub open spec fn starts_search(w: Seq<[usize; 2]>) -> bool {
    w.len() <= 2 && w[0][0] == 0
}

/// No chain of the pair table of at most `n` layers, other than those the
/// search starts past, computes the target.
pub open spec fn none_shorter(unique: Seq<[i16; 16]>, ps: Seq<Seq<[usize; 2]>>, mcount: int, n: int) -> bool {
    forall|w: Seq<[usize; 2]>|
        valid_chain(w, ps, mcount) && w.len() <= n && !starts_search(w) ==> #[trigger] misses_target(
            unique,
            w,
        )
}

/// The pieces the search works with fit together.
pub open spec fn search_env(
    unique: Seq<[i16; 16]>,
    ps: Seq<Seq<[usize; 2]>>,
    mcount: int,
    legality: Seq<[usize; 2]>,
    endings: Seq<usize>,
    union: Seq<Vec<BitVec>>,
) -> bool {
    &&& pairs_wf(ps, mcount)
    &&& mcount >= 1
    &&& unique.len() == mcount
    &&& layers_ok(unique)
    &&& is_target_legality(legality)
    &&& endings == Seq::new(mcount as nat, |i: int| i as usize)
    &&& union_bits(union) == spec_union(endings, unique)
}

/// A state the search can continue from.
pub open spec fn state_ok(
    s: SearchState,
    unique: Seq<[i16; 16]>,
    ps: Seq<Seq<[usize; 2]>>,
    mcount: int,
    legality: Seq<[usize; 2]>,
    endings: Seq<usize>,
) -> bool {
    &&& valid_chain(s.count@, ps, mcount)
    &&& s.depth == s.count.len()
    &&& s.current.len() == s.depth
    &&& forall|i: int| 0 <= i < s.depth ==> #[trigger] s.current@[i]@ == chain_output(unique, s.count@, i)
    &&& forall|i: int| 0 <= i < s.depth - 1 ==> spec_legal(#[trigger] s.current@[i]@, legality)
    &&& same_parity(s.depth as int, 1)
    &&& explored_before(unique, ps, mcount, s.count@)
    &&& !is_first_chain(s.count@) ==> misses_target(unique, s.count@)
    &&& s.next_layer ==> {
        &&& valid_chain(s.candidate@, ps, mcount)
        &&& s.candidate.len() == s.depth
        &&& spec_intersect(
            chain_output(unique, s.candidate@, s.depth - 1),
            spec_union(endings, unique),
        )
    }
    &&& !s.next_layer ==> s.candidate.len() == 0
    &&& !s.next_layer ==> no_ending_before(unique, ps, mcount, legality, endings, s.count@)
    &&& !s.next_layer && !is_first_chain(s.count@) ==> !one_layer_short(unique, endings, s.count@)
    &&& s.next_layer ==> no_ending_before(unique, ps, mcount, legality, endings, s.candidate@)
}

/// A chain of an even number of layers that computes the target leaves a
/// prefix one layer shorter whose intermediate outputs are all legal and
/// which reaches the target with one more layer; so where no such prefix
/// comes before `c`, no such chain of at most `c.len()` layers computes the
/// target.
proof fn lemma_even_chains_miss(
    unique: Seq<[i16; 16]>,
    ps: Seq<Seq<[usize; 2]>>,
    mcount: int,
    legality: Seq<[usize; 2]>,
    endings: Seq<usize>,
    c: Seq<[usize; 2]>,
    w: Seq<[usize; 2]>,
)
    requires
        pairs_wf(ps, mcount),
        unique.len() == mcount,
        layers_ok(unique),
        is_target_legality(legality),
        endings == Seq::new(mcount as nat, |i: int| i as usize),
        no_ending_before(unique, ps, mcount, legality, endings, c),
        valid_chain(w, ps, mcount),
        w.len() % 2 == 0,
        w.len() <= c.len(),
        !starts_search(w),
    ensures
        misses_target(unique, w),
{
    if !misses_target(unique, w) {
        let n = w.len() as int;
        let p = w.take(n - 1);
        assert forall|i: int| 1 <= i < p.len() implies #[trigger] link_ok(p, ps, i) by {
            assert(link_ok(w, ps, i));
        }
        assert(valid_chain(p, ps, mcount));
        assert(same_parity(p.len() as int, 1));
        assert(!is_first_chain(p));
        assert(precedes(p, c));
        lemma_target_legal(legality);
        lemma_target_legality_is_table(legality);
        assert(!has_illegal_prefix(unique, p, legality)) by {
            if has_illegal_prefix(unique, p, legality) {
                let i = choose|i: int|
                    0 <= i < p.len() - 1 && !spec_legal(#[trigger] chain_output(unique, p, i), legality);
                lemma_chain_output_prefix(unique, p, w, i);
                lemma_legal_prefix_back(unique, w, legality, i, n - 1);
            }
        }
        let out = chain_output(unique, p, n - 2);
        lemma_chain_output_prefix(unique, p, w, n - 2);
        lemma_chain_bounded(w, ps, mcount);
        lemma_chain_output_signal(unique, w, n - 2, mcount);
        lemma_union_intersect(out, endings, unique);
        let l = w[n - 1][0] as int;
        assert(endings[l] as int == l);
        assert(compose(unique[endings[l] as int]@, out) == TARGET@);
        assert(one_layer_short(unique, endings, p));
    }
}

/// A chain of the visited lengths before the one `next` moved to came
/// before the chain it moved from, is that chain, or has an illegal
/// intermediate output.
proof fn lemma_passed_over(
    unique: Seq<[i16; 16]>,
    ps: Seq<Seq<[usize; 2]>>,
    mcount: int,
    legality: Seq<[usize; 2]>,
    s_count: Seq<[usize; 2]>,
    c2: Seq<[usize; 2]>,
    cur2: Seq<[i16; 16]>,
    d2: int,
    w: Seq<[usize; 2]>,
)
    requires
        valid_chain(s_count, ps, mcount),
        same_parity(s_count.len() as int, 1),
        next_outcome(unique, ps, mcount, legality, s_count, c2, cur2, d2),
        valid_chain(w, ps, mcount),
        same_parity(w.len() as int, 1),
        precedes(w, c2),
    ensures
        precedes(w, s_count) || w == s_count || has_illegal_prefix(unique, w, legality),
{
    if !precedes(w, s_count) && w != s_count {
        if w.len() == s_count.len() {
            let dw = digits(w);
            let ds = digits(s_count);
            lemma_lex_trichotomy(dw, ds, w.len() as int);
            if agree(dw, ds, w.len() as int) {
                lemma_entries_agree(w, s_count, ps, mcount, w.len() as int);
                assert(w =~= s_count);
            }
            assert(lex_lt(ds, dw, w.len() as int));
        }
        assert(beyond(w, s_count, s_count.len() - 1));
        assert(crate::search::candidate(w, s_count, s_count.len() - 1, ps, mcount));
    }
}

/// The state the search starts from: the first unique layer alone.
pub fn search_start(
    unique: &Vec<[i16; 16]>,
    mcount: usize,
    pairs: &Vec<Vec<[usize; 2]>>,
    legality: &Vec<[usize; 2]>,
    endings: &Vec<usize>,
) -> (s: SearchState)
    requires
        unique.len() == mcount,
        mcount >= 1,
    ensures
        state_ok(s, unique@, rows_view(pairs), mcount as int, legality@, endings@),
        is_first_chain(s.count@),
        s.current.len() == 1,
        s.current@[0] == unique@[0],
        !s.next_layer,
        s.candidate@.len() == 0,
{
    let mut count: Vec<[usize; 2]> = Vec::new();
    count.push([0, 0]);
    let mut current: Vec<[i16; 16]> = Vec::new();
    current.push(unique[0]);
    let s = SearchState { count, current, depth: 1, candidate: Vec::new(), next_layer: false };
    proof {
        let ps = rows_view(pairs);
        assert(forall|i: int| 1 <= i < 1 ==> #[trigger] crate::search::link_ok(s.count@, ps, i));
        assert(s.current@[0]@ =~= chain_output(unique@, s.count@, 0));
        assert forall|w: Seq<[usize; 2]>|
            valid_chain(w, ps, mcount as int) && same_parity(w.len() as int, 1) && !is_first_chain(w)
                && #[trigger] precedes(w, s.count@) implies misses_target(unique@, w) by {
            if w.len() == 1 {
                let k = choose|k: int| k < 1 && #[trigger] crate::order::lt_at(digits(w), digits(s.count@), k);
                assert(digits(s.count@)[0] == 0);
            }
        }
    }
    s
}

/// One round of the search: moves to the next chain to test and decides
/// whether the search is over. When it is, the answer is a shortest one:
/// no chain with fewer layers than the answer, leaving aside those the
/// search starts past, computes the target.
pub fn search_step(
    s: SearchState,
    unique: &Vec<[i16; 16]>,
    mcount: usize,
    pairs: &Vec<Vec<[usize; 2]>>,
    legality: &Vec<[usize; 2]>,
    endings: &Vec<usize>,
    union: &Vec<Vec<BitVec>>,
) -> (res: (SearchState, SearchEvent))
    requires
        search_env(unique@, rows_view(pairs), mcount as int, legality@, endings@, union@),
        state_ok(s, unique@, rows_view(pairs), mcount as int, legality@, endings@),
    ensures
        ({
            let (r, ev) = res;
            let ps = rows_view(pairs);
            let table = spec_union(endings@, unique@);
            let changed = r.depth != s.depth;
            let out = chain_output(unique@, r.count@, r.depth - 1);
            &&& next_outcome(unique@, ps, mcount as int, legality@, s.count@, r.count@, r.current@, r.depth as int)
            &&& changed && s.next_layer ==> ev is Solved && r.next_layer && r.candidate@ == s.candidate@
            &&& !(changed && s.next_layer) && out == TARGET@ ==> ev is Solved && !r.next_layer
                && r.candidate@ == r.count@
            &&& !(changed && s.next_layer) && out != TARGET@ ==> {
                &&& ev is NewDepth <==> changed
                &&& ev !is Solved
                &&& r.next_layer == (s.next_layer || spec_intersect(out, table))
                &&& r.candidate@ == if !s.next_layer && r.next_layer {
                    s.candidate@ + r.count@
                } else {
                    s.candidate@
                }
            }
            &&& r.current.len() == r.depth
            &&& ev is Solved ==> valid_chain(r.candidate@, ps, mcount as int)
            &&& ev !is Solved ==> state_ok(r, unique@, ps, mcount as int, legality@, endings@)
            &&& ev is Solved ==> explored_before(unique@, ps, mcount as int, r.count@)
            &&& ev is Solved && !r.next_layer ==> {
                &&& chain_output(unique@, r.candidate@, r.candidate.len() - 1) == TARGET@
                &&& none_shorter(unique@, ps, mcount as int, r.candidate.len() - 1)
            }
            &&& ev is Solved && r.next_layer ==> {
                &&& r.candidate.len() < r.depth
                &&& spec_intersect(chain_output(unique@, r.candidate@, r.candidate.len() - 1), table)
                &&& none_shorter(unique@, ps, mcount as int, r.candidate.len() as int)
            }
        }),
{
    let ghost ps = rows_view(pairs);
    let ghost s_count = s.count@;
    let ghost s_candidate = s.candidate@;
    let SearchState { count, current, depth, candidate, next_layer } = s;
    let pdepth = depth;
    proof {
        lemma_target_legality_is_table(legality@);
    }
    let (count, current, depth) = next(count, current, depth, unique, mcount, pairs, legality);
    let mut candidate = candidate;
    let mut next_layer = next_layer;
    proof {
        // Every chain before the new one, other than the start, misses the target.
        assert forall|w: Seq<[usize; 2]>|
            valid_chain(w, ps, mcount as int) && same_parity(w.len() as int, 1) && !is_first_chain(w)
                && #[trigger] precedes(w, count@) implies misses_target(unique@, w) by {
            lemma_passed_over(unique@, ps, mcount as int, legality@, s_count, count@, current@, depth as int, w);
            if has_illegal_prefix(unique@, w, legality@) {
                lemma_illegal_prefix_misses_target(unique@, w, legality@);
            }
        }
        // Nor does any tested chain before it reach the target with one more layer.
        if !next_layer {
            assert forall|w: Seq<[usize; 2]>|
                valid_chain(w, ps, mcount as int) && same_parity(w.len() as int, 1) && !is_first_chain(w)
                    && #[trigger] precedes(w, count@) && !has_illegal_prefix(unique@, w, legality@)
                    implies !one_layer_short(unique@, endings@, w) by {
                lemma_passed_over(unique@, ps, mcount as int, legality@, s_count, count@, current@, depth as int, w);
            }
        }
    }
    if depth != pdepth && next_layer {
        proof {
            assert forall|w: Seq<[usize; 2]>|
                valid_chain(w, ps, mcount as int) && w.len() <= s_candidate.len() && !starts_search(w)
                    implies #[trigger] misses_target(unique@, w) by {
                if w.len() % 2 == 0 {
                    lemma_even_chains_miss(unique@, ps, mcount as int, legality@, endings@, s_candidate, w);
                } else {
                    assert(precedes(w, count@));
                }
            }
        }
        let r = SearchState { count, current, depth, candidate, next_layer };
        return (r, SearchEvent::Solved);
    }
    proof {
        lemma_chain_bounded(count@, ps, mcount as int);
        lemma_chain_output_signal(unique@, count@, depth - 1, mcount as int);
    }
    let output: [i16; 16] = current[depth - 1];
    if same_layer(&output, &TARGET) {
        candidate = Vec::new();
        for i in 0..count.len()
            invariant
                candidate@ == count@.take(i as int),
        {
            candidate.push(count[i]);
            assert(candidate@ =~= count@.take(i + 1));
        }
        assert(candidate@ =~= count@);
        proof {
            assert forall|w: Seq<[usize; 2]>|
                valid_chain(w, ps, mcount as int) && w.len() <= count.len() - 1 && !starts_search(w)
                    implies #[trigger] misses_target(unique@, w) by {
                if w.len() % 2 == 0 {
                    if next_layer {
                        lemma_even_chains_miss(unique@, ps, mcount as int, legality@, endings@, s_candidate, w);
                    } else {
                        lemma_even_chains_miss(unique@, ps, mcount as int, legality@, endings@, count@, w);
                    }
                } else {
                    assert(precedes(w, count@));
                }
            }
        }
        next_layer = false;
        let r = SearchState { count, current, depth, candidate, next_layer };
        return (r, SearchEvent::Solved);
    } else if !next_layer {
        proof {
            let u = union_bits(union@);
            assert(u.len() == 16);
            assert forall|i: int| 0 <= i < 16 implies (#[trigger] union@[i])@.len() == 16 by {
                assert(u[i].len() == 16);
            }
        }
        next_layer = intersect_check(output, union);
        if next_layer {
            let ghost before = candidate@;
            for i in 0..count.len()
                invariant
                    candidate@ == before + count@.take(i as int),
            {
                candidate.push(count[i]);
                assert(candidate@ =~= before + count@.take(i + 1));
            }
            assert(count@.take(count.len() as int) =~= count@);
        }
    }
    let event = if depth != pdepth {
        SearchEvent::NewDepth
    } else {
        SearchEvent::Searching
    };
    let r = SearchState { count, current, depth, candidate, next_layer };
    proof {
        if next_layer && !s.next_layer {
            assert(candidate@ =~= count@);
        }
    }
    (r, event)
}

} // verus!
