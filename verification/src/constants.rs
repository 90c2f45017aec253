use vstd::prelude::*;

verus! {

/// Number of signal strengths a layer maps (0 through 15).
pub const STATES: i16 = 16;

/// The function the search is looking for, as a table from input to output.
pub const TARGET: [i16; 16] = [0, 1, 2, 0, 1, 2, 0, 1, 2, 0, 1, 2, 0, 1, 2, 0];

/// A table of sixteen outputs, each a valid signal strength.
pub open spec fn is_signal_table(t: Seq<i16>) -> bool {
    &&& t.len() == 16
    &&& forall|i: int| 0 <= i < 16 ==> 0 <= #[trigger] t[i] < 16
}

/// The identity table `[0, 1, ..., 15]`.
pub open spec fn identity_table() -> Seq<i16> {
    Seq::new(16, |i: int| i as i16)
}

} // verus!
