//! A single cell of the grid and its candidate-digit state.

use vstd::prelude::*;

verus! {

/// A strictly increasing sequence of digits, each between 1 and 9.
/// This is the shape every candidate list keeps: order makes the list
/// canonical for its set of digits, and strict increase rules out
/// duplicates.
pub open spec fn candidate_seq_wf(s: Seq<u8>) -> bool {
    &&& forall|k: int, l: int| 0 <= k < l < s.len() ==> s[k] < s[l]
    &&& forall|k: int| 0 <= k < s.len() ==> 1 <= #[trigger] s[k] <= 9
}

/// One cell of the grid: the digits still possible for it.
///
/// A cell with exactly one candidate is settled, one with none is
/// contradictory, any other count is still undetermined.
pub struct Field {
    pub values: Vec<u8>,
}

impl Field {
    /// The candidate list is strictly increasing and holds digits 1..=9 only.
    pub open spec fn wf(self) -> bool {
        candidate_seq_wf(self.values@)
    }

    /// A cell known to hold `v` and nothing else.
    pub fn settled(v: u8) -> (r: Field)
        requires
            1 <= v <= 9,
        ensures
            r.values@ =~= seq![v],
            r.wf(),
    {
        Field { values: vec![v] }
    }

    /// A cell still has a chance of holding some digit.
    pub fn is_valid(&self) -> (r: bool)
        ensures
            r == (self.values@.len() > 0),
    {
        self.values.len() > 0
    }

    /// A cell is pinned to exactly one digit.
    pub fn is_settled(&self) -> (r: bool)
        ensures
            r == (self.values@.len() == 1),
    {
        self.values.len() == 1
    }

    /// An independent copy holding the same candidates.
    pub fn duplicate(&self) -> (r: Field)
        ensures
            r.values@ == self.values@,
    {
        let values = self.values.clone();
        proof {
            assert(values@ =~= self.values@);
        }
        Field { values }
    }
}

impl Default for Field {
    /// A cell about which nothing is known: all nine digits are possible.
    fn default() -> (r: Field)
        ensures
            r.values@ =~= seq![1u8, 2u8, 3u8, 4u8, 5u8, 6u8, 7u8, 8u8, 9u8],
            r.wf(),
    {
        Field { values: vec![1u8, 2u8, 3u8, 4u8, 5u8, 6u8, 7u8, 8u8, 9u8] }
    }
}

} // verus!
