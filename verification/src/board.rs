//! The 9x9 grid, its units, its validity checks, and one propagation pass.

use vstd::prelude::*;

use crate::field::candidate_seq_wf;
use crate::field::Field;

verus! {

/// Row of the cell at flattened index `i` (cells are numbered row-major,
/// `row * 9 + col`).
pub open spec fn row_of(i: int) -> int {
    i / 9
}

/// Column of the cell at flattened index `i`.
pub open spec fn col_of(i: int) -> int {
    i % 9
}

/// Index (0..9) of the 3x3 box holding the cell at flattened index `i`.
/// Box `k` covers rows `(k / 3) * 3..+3` and columns `(k % 3) * 3..+3`.
pub open spec fn box_of(i: int) -> int {
    (i / 27) * 3 + (i % 9) / 3
}

/// Two cells share a unit when they lie in the same row, the same column,
/// or the same 3x3 box. Such cells may not settle on the same digit.
pub open spec fn same_unit(i: int, j: int) -> bool {
    ||| row_of(i) == row_of(j)
    ||| col_of(i) == col_of(j)
    ||| box_of(i) == box_of(j)
}

/// The grid: 81 cells in row-major order, each keeping its candidate
/// digits.
pub struct Board {
    cells: Vec<Field>,
}

impl View for Board {
    type V = Seq<Field>;

    closed spec fn view(&self) -> Seq<Field> {
        self.cells@
    }
}

impl Board {
    /// Exactly 81 cells, each with a well-formed candidate list.
    pub open spec fn wf(self) -> bool {
        &&& self@.len() == 81
        &&& forall|i: int| 0 <= i < 81 ==> (#[trigger] self@[i]).wf()
    }

    /// The cell at flattened index `i` is pinned to one digit.
    pub open spec fn spec_settled_at(self, i: int) -> bool {
        self@[i].values@.len() == 1
    }

    /// The digit of a settled cell.
    pub open spec fn spec_digit_at(self, i: int) -> u8 {
        self@[i].values@[0]
    }

    /// Every cell still has a candidate, and no two settled cells of a
    /// shared unit hold the same digit.
    pub open spec fn spec_valid(self) -> bool {
        &&& forall|i: int| 0 <= i < 81 ==> (#[trigger] self@[i]).values@.len() > 0
        &&& forall|i: int, j: int|
            #![trigger self.spec_settled_at(i), self.spec_settled_at(j)]
            0 <= i < 81 && 0 <= j < 81 && i != j && same_unit(i, j) && self.spec_settled_at(i)
                && self.spec_settled_at(j) ==> self.spec_digit_at(i) != self.spec_digit_at(j)
    }

    /// All 81 cells are settled.
    pub open spec fn spec_solved(self) -> bool {
        forall|i: int| 0 <= i < 81 ==> self.spec_settled_at(i)
    }
}

/// The digit an input character stands for: `'1'` through `'9'` settle a
/// cell, every other character (including `'0'` and `'.'`) leaves it open.
/// `'0'` marks a blank rather than a settled zero: zero is not a Sudoku
/// digit, so a cell can never be pinned to it.
pub open spec fn spec_digit_of_char(c: char) -> Option<u8> {
    match c {
        '1' => Some(1u8),
        '2' => Some(2u8),
        '3' => Some(3u8),
        '4' => Some(4u8),
        '5' => Some(5u8),
        '6' => Some(6u8),
        '7' => Some(7u8),
        '8' => Some(8u8),
        '9' => Some(9u8),
        _ => None,
    }
}

/// The candidate list an input character gives its cell.
pub open spec fn spec_initial_values(c: char) -> Seq<u8> {
    match spec_digit_of_char(c) {
        Some(d) => seq![d],
        None => seq![1u8, 2u8, 3u8, 4u8, 5u8, 6u8, 7u8, 8u8, 9u8],
    }
}

/// The cell a single input character describes.
fn field_of_char(c: char) -> (f: Field)
    ensures
        f.values@ == spec_initial_values(c),
        f.wf(),
{
    let f = match c {
        '1' => Field::settled(1),
        '2' => Field::settled(2),
        '3' => Field::settled(3),
        '4' => Field::settled(4),
        '5' => Field::settled(5),
        '6' => Field::settled(6),
        '7' => Field::settled(7),
        '8' => Field::settled(8),
        '9' => Field::settled(9),
        _ => Field::default(),
    };
    proof {
        assert(f.values@ =~= spec_initial_values(c));
    }
    f
}

impl Board {
    /// Build a grid from an 81-character description, one character per
    /// cell in row-major order. A digit `'1'`..`'9'` settles its cell;
    /// anything else leaves the cell fully open. A string of any other
    /// length describes no grid and is rejected.
    pub fn from_string(s: String) -> (r: Option<Board>)
        ensures
            r is Some <==> s@.len() == 81,
            match r {
                Some(b) => {
                    &&& b.wf()
                    &&& b.spec_candidates_complete()
                    &&& forall|i: int|
                        0 <= i < 81 ==> (#[trigger] b@[i]).values@ == spec_initial_values(s@[i])
                },
                None => s@.len() != 81,
            },
    {
        let n = s.as_str().unicode_len();
        if n != 81 {
            return None;
        }
        let mut cells: Vec<Field> = Vec::new();
        let mut i: usize = 0;
        while i < 81
            invariant
                i <= 81,
                s@.len() == 81,
                cells@.len() == i,
                forall|k: int| 0 <= k < i ==> (#[trigger] cells@[k]).values@ == spec_initial_values(s@[k]),
                forall|k: int| 0 <= k < i ==> (#[trigger] cells@[k]).wf(),
            decreases 81 - i,
        {
            let c = s.as_str().get_char(i);
            cells.push(field_of_char(c));
            i += 1;
        }
        let b = Board { cells };
        proof {
            b.lemma_full_cells_complete();
        }
        Some(b)
    }

    /// True when every cell keeps at least one candidate and no unit holds
    /// two settled copies of one digit.
    pub fn is_valid(&self) -> (r: bool)
        requires
            self.wf(),
        ensures
            r == self.spec_valid(),
    {
        let mut i: usize = 0;
        while i < 81
            invariant
                self.wf(),
                i <= 81,
                forall|k: int| 0 <= k < i ==> (#[trigger] self@[k]).values@.len() > 0,
            decreases 81 - i,
        {
            if self.cells[i].values.len() == 0 {
                return false;
            }
            i += 1;
        }
        let mut i: usize = 0;
        while i < 81
            invariant
                self.wf(),
                i <= 81,
                forall|a: int, b: int|
                    #![trigger self.spec_settled_at(a), self.spec_settled_at(b)]
                    0 <= a < i && 0 <= b < 81 && a != b && same_unit(a, b)
                        && self.spec_settled_at(a) && self.spec_settled_at(b)
                        ==> self.spec_digit_at(a) != self.spec_digit_at(b),
                forall|k: int| 0 <= k < 81 ==> (#[trigger] self@[k]).values@.len() > 0,
            decreases 81 - i,
        {
            if self.cells[i].values.len() == 1 {
                let d = self.cells[i].values[0];
                let mut j: usize = 0;
                while j < 81
                    invariant
                        self.wf(),
                        i < 81,
                        j <= 81,
                        self.spec_settled_at(i as int),
                        d == self.spec_digit_at(i as int),
                        forall|b: int|
                            0 <= b < j && i as int != b && same_unit(i as int, b)
                                && #[trigger] self.spec_settled_at(b)
                                ==> self.spec_digit_at(i as int) != self.spec_digit_at(b),
                    decreases 81 - j,
                {
                    if j != i
                        && same_unit_cells(i, j)
                        && self.cells[j].values.len() == 1
                        && self.cells[j].values[0] == d
                    {
                        proof {
                            assert(self.spec_settled_at(i as int));
                            assert(self.spec_settled_at(j as int));
                            assert(self.spec_digit_at(i as int) == self.spec_digit_at(j as int));
                            assert(!self.spec_valid());
                        }
                        return false;
                    }
                    j += 1;
                }
            }
            i += 1;
        }
        true
    }

    /// True when all 81 cells are settled. Does not re-check validity.
    pub fn is_solved(&self) -> (r: bool)
        requires
            self.wf(),
        ensures
            r == self.spec_solved(),
    {
        let mut i: usize = 0;
        while i < 81
            invariant
                self.wf(),
                i <= 81,
                forall|k: int| 0 <= k < i ==> self.spec_settled_at(k),
            decreases 81 - i,
        {
            if self.cells[i].values.len() != 1 {
                proof {
                    assert(!self.spec_settled_at(i as int));
                }
                return false;
            }
            i += 1;
        }
        true
    }

    /// The candidate list of the cell at flattened index `i`, as a copy.
    pub fn candidates_at(&self, i: usize) -> (r: Vec<u8>)
        requires
            self.wf(),
            i < 81,
        ensures
            r@ == self@[i as int].values@,
    {
        let r = self.cells[i].values.clone();
        proof {
            assert(r@ =~= self@[i as int].values@);
        }
        r
    }

    /// An independent copy of the grid: same candidates in every cell,
    /// no sharing. The search clones the board once per branch so that a
    /// failed hypothesis can simply be thrown away.
    pub fn duplicate(&self) -> (r: Board)
        requires
            self.wf(),
        ensures
            r.wf(),
            r@.len() == 81,
            forall|i: int| 0 <= i < 81 ==> (#[trigger] r@[i]).values@ == self@[i].values@,
    {
        let mut cells: Vec<Field> = Vec::new();
        let mut i: usize = 0;
        while i < 81
            invariant
                self.wf(),
                i <= 81,
                cells@.len() == i,
                forall|k: int| 0 <= k < i ==> (#[trigger] cells@[k]).values@ == self@[k].values@,
            decreases 81 - i,
        {
            cells.push(self.cells[i].duplicate());
            i += 1;
        }
        Board { cells }
    }

    /// Force the cell at flattened index `index` to exactly the given
    /// candidate list; every other cell is untouched. The search uses this
    /// to pin its branching cell to a single hypothesis digit.
    pub fn update(&mut self, index: usize, values: Vec<u8>)
        requires
            old(self).wf(),
            index < 81,
            candidate_seq_wf(values@),
        ensures
            final(self).wf(),
            final(self)@.len() == 81,
            final(self)@[index as int].values@ == values@,
            forall|j: int| 0 <= j < 81 && j != index ==> final(self)@[j] == old(self)@[j],
    {
        self.cells.set(index, Field { values });
    }
}

impl Board {
    /// Digit `v` is ruled out for the cell at `i`: some other cell of a
    /// shared unit is already settled on `v`.
    pub open spec fn spec_excluded(self, i: int, v: u8) -> bool {
        exists|j: int|
            0 <= j < 81 && j != i && same_unit(i, j) && #[trigger] self.spec_settled_at(j)
                && self.spec_digit_at(j) == v
    }

    /// The digits 1..=hi still open for the cell at `i`, in increasing
    /// order: those no settled peer has claimed.
    pub open spec fn spec_pass_values_upto(self, i: int, hi: int) -> Seq<u8>
        decreases hi,
    {
        if hi <= 0 {
            Seq::empty()
        } else if !self.spec_excluded(i, hi as u8) {
            self.spec_pass_values_upto(i, hi - 1).push(hi as u8)
        } else {
            self.spec_pass_values_upto(i, hi - 1)
        }
    }

    /// What one propagation pass gives the unsettled cell at `i`: all of
    /// 1..=9 except the digits settled elsewhere in its row, column or box.
    pub open spec fn spec_pass_values(self, i: int) -> Seq<u8> {
        self.spec_pass_values_upto(i, 9)
    }

    /// How one propagation pass turns `pre` into `post`: settled cells
    /// are untouched, every other cell's candidates are recomputed from
    /// the settled digits of the `pre` snapshot. The whole pass reads one
    /// consistent snapshot; reductions do not cascade within a pass.
    pub open spec fn spec_pass_rel(pre: Board, post: Board) -> bool {
        &&& post@.len() == 81
        &&& forall|i: int|
            0 <= i < 81 && pre.spec_settled_at(i) ==> (#[trigger] post@[i]).values@
                == pre@[i].values@
        &&& forall|i: int|
            0 <= i < 81 && !pre.spec_settled_at(i) ==> (#[trigger] post@[i]).values@
                == pre.spec_pass_values(i)
    }

    /// A pass over this state reports progress: some unsettled cell's
    /// recomputed candidate list has exactly one digit left.
    pub open spec fn spec_pass_progress(self) -> bool {
        exists|i: int|
            0 <= i < 81 && !(#[trigger] self.spec_settled_at(i)) && self.spec_pass_values(
                i,
            ).len() == 1
    }

    /// Shape of the recomputed candidate lists: sorted, in range, and
    /// holding exactly the digits up to `hi` that no settled peer claims.
    pub proof fn lemma_pass_values_upto_props(self, i: int, hi: int)
        requires
            0 <= hi <= 9,
        ensures
            candidate_seq_wf(self.spec_pass_values_upto(i, hi)),
            self.spec_pass_values_upto(i, hi).len() <= hi,
            forall|k: int|
                0 <= k < self.spec_pass_values_upto(i, hi).len() ==> 1 <= #[trigger] self
                    .spec_pass_values_upto(i, hi)[k] <= hi,
            forall|v: u8|
                self.spec_pass_values_upto(i, hi).contains(v) <==> (1 <= v <= hi
                    && !self.spec_excluded(i, v)),
        decreases hi,
    {
        if hi > 0 {
            self.lemma_pass_values_upto_props(i, hi - 1);
            let rest = self.spec_pass_values_upto(i, hi - 1);
            let whole = self.spec_pass_values_upto(i, hi);
            if !self.spec_excluded(i, hi as u8) {
                assert(whole == rest.push(hi as u8));
                assert forall|v: u8| whole.contains(v) implies (1 <= v <= hi && !self.spec_excluded(
                    i,
                    v,
                )) by {
                    let k = choose|k: int| 0 <= k < whole.len() && whole[k] == v;
                    if k < rest.len() {
                        assert(rest.contains(v));
                    }
                }
                assert forall|v: u8| 1 <= v <= hi && !self.spec_excluded(i, v) implies whole
                    .contains(v) by {
                    if v <= hi - 1 {
                        assert(rest.contains(v));
                        let k = choose|k: int| 0 <= k < rest.len() && rest[k] == v;
                        assert(whole[k] == v);
                    } else {
                        assert(whole[whole.len() - 1] == hi as u8);
                    }
                }
            } else {
                assert(whole == rest);
                assert forall|v: u8| 1 <= v <= hi && !self.spec_excluded(i, v) implies whole
                    .contains(v) by {
                    assert(v != hi as u8);
                    assert(rest.contains(v));
                }
            }
        }
    }

    /// Whether digit `v` is already settled somewhere else in the row,
    /// column or box of the cell at `i`.
    fn value_excluded(&self, i: usize, v: u8) -> (r: bool)
        requires
            self.wf(),
            i < 81,
        ensures
            r == self.spec_excluded(i as int, v),
    {
        let mut j: usize = 0;
        while j < 81
            invariant
                self.wf(),
                i < 81,
                j <= 81,
                forall|b: int|
                    0 <= b < j && b != i as int && same_unit(i as int, b)
                        && #[trigger] self.spec_settled_at(b) ==> self.spec_digit_at(b) != v,
            decreases 81 - j,
        {
            if j != i
                && same_unit_cells(i, j)
                && self.cells[j].values.len() == 1
                && self.cells[j].values[0] == v
            {
                proof {
                    assert(self.spec_settled_at(j as int));
                }
                return true;
            }
            j += 1;
        }
        false
    }

    /// The recomputed candidate list for the cell at `i`: every digit of
    /// 1..=9 that no settled peer claims, in increasing order.
    fn compute_candidates(&self, i: usize) -> (r: Vec<u8>)
        requires
            self.wf(),
            i < 81,
        ensures
            r@ == self.spec_pass_values(i as int),
    {
        let mut values: Vec<u8> = Vec::new();
        let mut v: u8 = 1;
        while v <= 9
            invariant
                self.wf(),
                i < 81,
                1 <= v <= 10,
                values@ == self.spec_pass_values_upto(i as int, v as int - 1),
            decreases 10 - v,
        {
            if !self.value_excluded(i, v) {
                values.push(v);
            }
            v += 1;
        }
        values
    }

    /// One propagation pass. Every unsettled cell's candidate list is
    /// recomputed as 1..=9 minus the digits settled elsewhere in its row,
    /// column and box, all read from the board state as it stood when the
    /// pass began. Returns whether some cell's list was narrowed to
    /// exactly one digit, the caller's signal to run another pass.
    pub fn solve(&mut self) -> (progress: bool)
        requires
            old(self).wf(),
        ensures
            final(self).wf(),
            final(self).spec_candidates_complete(),
            Board::spec_pass_rel(*old(self), *final(self)),
            progress == old(self).spec_pass_progress(),
    {
        let mut cells: Vec<Field> = Vec::new();
        let mut progress = false;
        let mut i: usize = 0;
        while i < 81
            invariant
                self.wf(),
                i <= 81,
                cells@.len() == i,
                forall|k: int|
                    0 <= k < i && self.spec_settled_at(k) ==> (#[trigger] cells@[k]).values@
                        == self@[k].values@,
                forall|k: int|
                    0 <= k < i && !self.spec_settled_at(k) ==> (#[trigger] cells@[k]).values@
                        == self.spec_pass_values(k),
                forall|k: int| 0 <= k < i ==> (#[trigger] cells@[k]).wf(),
                progress ==> exists|k: int|
                    0 <= k < i && !(#[trigger] self.spec_settled_at(k)) && self.spec_pass_values(
                        k,
                    ).len() == 1,
                !progress ==> forall|k: int|
                    0 <= k < i && !(#[trigger] self.spec_settled_at(k)) ==> self.spec_pass_values(
                        k,
                    ).len() != 1,
            decreases 81 - i,
        {
            if self.cells[i].values.len() == 1 {
                cells.push(self.cells[i].duplicate());
            } else {
                let values = self.compute_candidates(i);
                if values.len() == 1 {
                    progress = true;
                    proof {
                        assert(!self.spec_settled_at(i as int));
                        assert(self.spec_pass_values(i as int).len() == 1);
                    }
                }
                proof {
                    self.lemma_pass_values_upto_props(i as int, 9);
                }
                cells.push(Field { values });
            }
            i += 1;
        }
        self.cells = cells;
        proof {
            Board::lemma_pass_gives_complete(*old(self), *self);
        }
        progress
    }
}

impl Board {
    /// Every unsettled cell, as its flattened index paired with a copy of
    /// its candidate list, in increasing index order and with none left
    /// out. The search reads this to pick its branching cell.
    pub fn possible_values(&self) -> (r: Vec<(usize, Vec<u8>)>)
        requires
            self.wf(),
        ensures
            forall|k: int|
                0 <= k < r@.len() ==> (#[trigger] r@[k]).0 < 81 && !self.spec_settled_at(
                    r@[k].0 as int,
                ) && r@[k].1@ == self@[r@[k].0 as int].values@,
            forall|k: int, l: int|
                #![trigger r@[k], r@[l]]
                0 <= k < l < r@.len() ==> r@[k].0 < r@[l].0,
            forall|i: int|
                0 <= i < 81 && !(#[trigger] self.spec_settled_at(i)) ==> exists|k: int|
                    0 <= k < r@.len() && (#[trigger] r@[k]).0 == i,
    {
        let mut r: Vec<(usize, Vec<u8>)> = Vec::new();
        let mut i: usize = 0;
        while i < 81
            invariant
                self.wf(),
                i <= 81,
                forall|k: int|
                    0 <= k < r@.len() ==> (#[trigger] r@[k]).0 < i && !self.spec_settled_at(
                        r@[k].0 as int,
                    ) && r@[k].1@ == self@[r@[k].0 as int].values@,
                forall|k: int, l: int|
                    #![trigger r@[k], r@[l]]
                    0 <= k < l < r@.len() ==> r@[k].0 < r@[l].0,
                forall|i0: int|
                    0 <= i0 < i && !(#[trigger] self.spec_settled_at(i0)) ==> exists|k: int|
                        0 <= k < r@.len() && (#[trigger] r@[k]).0 == i0,
            decreases 81 - i,
        {
            if self.cells[i].values.len() != 1 {
                let vals = self.cells[i].values.clone();
                proof {
                    assert(vals@ =~= self@[i as int].values@);
                }
                let ghost r0 = r@;
                r.push((i, vals));
                proof {
                    assert forall|i0: int|
                        0 <= i0 < i + 1 && !(#[trigger] self.spec_settled_at(i0)) implies exists|
                        k: int,
                    |
                        0 <= k < r@.len() && (#[trigger] r@[k]).0 == i0 by {
                        if i0 == i as int {
                            assert(r@[r@.len() - 1].0 == i0);
                        } else {
                            let k = choose|k: int| 0 <= k < r0.len() && (#[trigger] r0[k]).0 == i0;
                            assert(r@[k].0 == i0);
                        }
                    }
                }
            }
            i += 1;
        }
        r
    }

    /// One pass is conservative. A digit that no settled peer of the
    /// unsettled cell at `i` has claimed always survives the pass; and
    /// whenever the cell's current list already holds every unclaimed
    /// digit, the pass can only narrow that list, never widen it. (The
    /// builder and the pass itself keep every board of a solving run in
    /// that state, so along a run the pass only ever narrows.)
    pub proof fn lemma_pass_conservative(self, i: int, v: u8)
        requires
            self.wf(),
            0 <= i < 81,
            !self.spec_settled_at(i),
        ensures
            1 <= v <= 9 && !self.spec_excluded(i, v) ==> self.spec_pass_values(i).contains(v),
            (forall|w: u8|
                1 <= w <= 9 && !self.spec_excluded(i, w) ==> self@[i].values@.contains(w))
                ==> (forall|w: u8|
                self.spec_pass_values(i).contains(w) ==> self@[i].values@.contains(w)),
    {
        self.lemma_pass_values_upto_props(i, 9);
        if forall|w: u8|
            1 <= w <= 9 && !self.spec_excluded(i, w) ==> #[trigger] self@[i].values@.contains(w) {
            assert forall|w: u8| self.spec_pass_values(i).contains(w) implies self@[i]
                .values@.contains(w) by {
                assert(1 <= w <= 9 && !self.spec_excluded(i, w));
            }
        }
    }

    /// Once a pass reports no progress, the board is at a fixed point: a
    /// further pass returns every cell's candidate list unchanged and
    /// again reports no progress.
    pub proof fn lemma_pass_fixed_point(pre: Board, post: Board)
        requires
            pre.wf(),
            Board::spec_pass_rel(pre, post),
            !pre.spec_pass_progress(),
        ensures
            !post.spec_pass_progress(),
            forall|i: int|
                0 <= i < 81 && !(#[trigger] post.spec_settled_at(i)) ==> post.spec_pass_values(i)
                    == post@[i].values@,
    {
        assert forall|i: int| 0 <= i < 81 implies post.spec_settled_at(i) == pre.spec_settled_at(i)
            && (pre.spec_settled_at(i) ==> post.spec_digit_at(i) == pre.spec_digit_at(i)) by {
            if !pre.spec_settled_at(i) {
                pre.lemma_pass_values_upto_props(i, 9);
                assert(post@[i].values@ == pre.spec_pass_values(i));
                assert(pre.spec_pass_values(i).len() != 1);
            }
        }
        assert forall|i: int, v: u8| 0 <= i < 81 implies #[trigger] post.spec_excluded(i, v)
            == pre.spec_excluded(i, v) by {
            if post.spec_excluded(i, v) {
                let j = choose|j: int|
                    0 <= j < 81 && j != i && same_unit(i, j) && post.spec_settled_at(j)
                        && post.spec_digit_at(j) == v;
                assert(pre.spec_settled_at(j) && pre.spec_digit_at(j) == v);
            }
            if pre.spec_excluded(i, v) {
                let j = choose|j: int|
                    0 <= j < 81 && j != i && same_unit(i, j) && pre.spec_settled_at(j)
                        && pre.spec_digit_at(j) == v;
                assert(post.spec_settled_at(j) && post.spec_digit_at(j) == v);
            }
        }
        assert forall|i: int, hi: int| 0 <= i < 81 && 0 <= hi <= 9 implies #[trigger] post
            .spec_pass_values_upto(i, hi) == pre.spec_pass_values_upto(i, hi) by {
            Board::lemma_pass_values_upto_agree(pre, post, i, hi);
        }
        assert forall|i: int| 0 <= i < 81 && !(#[trigger] post.spec_settled_at(i)) implies post
            .spec_pass_values(i) == post@[i].values@ by {
            assert(post@[i].values@ == pre.spec_pass_values(i));
        }
    }

    /// Two boards whose settled cells agree exclude the same digits, so
    /// their recomputed candidate lists agree too.
    proof fn lemma_pass_values_upto_agree(pre: Board, post: Board, i: int, hi: int)
        requires
            0 <= hi <= 9,
            forall|i0: int, v: u8|
                0 <= i0 < 81 ==> #[trigger] post.spec_excluded(i0, v) == pre.spec_excluded(i0, v),
            0 <= i < 81,
        ensures
            post.spec_pass_values_upto(i, hi) == pre.spec_pass_values_upto(i, hi),
        decreases hi,
    {
        if hi > 0 {
            Board::lemma_pass_values_upto_agree(pre, post, i, hi - 1);
        }
    }
}

impl Board {
    /// Every unsettled cell still lists every digit no settled peer has
    /// claimed. Freshly built boards have it, one propagation pass gives
    /// it back, and pinning a cell keeps it; so every board a solving run
    /// touches is in this state, and for such boards a pass can only ever
    /// narrow a candidate list.
    pub open spec fn spec_candidates_complete(self) -> bool {
        forall|i: int, v: u8|
            0 <= i < 81 && !self.spec_settled_at(i) && 1 <= v <= 9 && !(
            #[trigger] self.spec_excluded(i, v)) ==> self@[i].values@.contains(v)
    }

    /// A board whose unsettled cells all hold the full digit list is
    /// complete; builders start every unsettled cell that way.
    pub proof fn lemma_full_cells_complete(self)
        requires
            self.wf(),
            forall|i: int|
                0 <= i < 81 && !(#[trigger] self.spec_settled_at(i)) ==> self@[i].values@
                    == seq![1u8, 2u8, 3u8, 4u8, 5u8, 6u8, 7u8, 8u8, 9u8],
        ensures
            self.spec_candidates_complete(),
    {
        assert forall|i: int, v: u8|
            0 <= i < 81 && !self.spec_settled_at(i) && 1 <= v <= 9 && !(
            #[trigger] self.spec_excluded(i, v)) implies self@[i].values@.contains(v) by {
            assert(self@[i].values@[v - 1] == v);
        }
    }

    /// Whatever the pre-state, the board a pass leaves behind is
    /// complete: each recomputed list holds every digit its cell's
    /// settled peers have not claimed.
    pub proof fn lemma_pass_gives_complete(pre: Board, post: Board)
        requires
            pre.wf(),
            Board::spec_pass_rel(pre, post),
        ensures
            post.spec_candidates_complete(),
    {
        assert forall|i: int, v: u8|
            0 <= i < 81 && !post.spec_settled_at(i) && 1 <= v <= 9 && !(
            #[trigger] post.spec_excluded(i, v)) implies post@[i].values@.contains(v) by {
            assert(!pre.spec_settled_at(i));
            if pre.spec_excluded(i, v) {
                let j = choose|j: int|
                    0 <= j < 81 && j != i && same_unit(i, j) && #[trigger] pre.spec_settled_at(j)
                        && pre.spec_digit_at(j) == v;
                assert(post.spec_settled_at(j) && post.spec_digit_at(j) == v);
            }
            pre.lemma_pass_values_upto_props(i, 9);
            assert(pre.spec_pass_values(i).contains(v));
        }
    }

    /// Pinning one unsettled cell to a hypothesis (what `update` does in
    /// the search) keeps the board complete: the new settled digit only
    /// shrinks what the other cells are owed.
    pub proof fn lemma_update_preserves_complete(pre: Board, post: Board, index: int)
        requires
            pre.wf(),
            pre.spec_candidates_complete(),
            post@.len() == 81,
            0 <= index < 81,
            !pre.spec_settled_at(index),
            post.spec_settled_at(index),
            forall|j: int| 0 <= j < 81 && j != index ==> post@[j] == pre@[j],
        ensures
            post.spec_candidates_complete(),
    {
        assert forall|i: int, v: u8|
            0 <= i < 81 && !post.spec_settled_at(i) && 1 <= v <= 9 && !(
            #[trigger] post.spec_excluded(i, v)) implies post@[i].values@.contains(v) by {
            assert(i != index);
            assert(!pre.spec_settled_at(i));
            if pre.spec_excluded(i, v) {
                let j = choose|j: int|
                    0 <= j < 81 && j != i && same_unit(i, j) && #[trigger] pre.spec_settled_at(j)
                        && pre.spec_digit_at(j) == v;
                assert(j != index);
                assert(post.spec_settled_at(j) && post.spec_digit_at(j) == v);
            }
            assert(pre@[i].values@.contains(v));
        }
    }
}

/// Membership of the cell at flattened index `i` in unit `u` of the 27:
/// units 0..9 are the rows, 9..18 the columns, 18..27 the 3x3 boxes.
pub open spec fn unit_member(u: int, i: int) -> bool {
    &&& 0 <= i < 81
    &&& if u < 9 {
        row_of(i) == u
    } else if u < 18 {
        col_of(i) == u - 9
    } else {
        box_of(i) == u - 18
    }
}

/// The flattened index of the `k`-th cell (0..9) of unit `u`.
pub open spec fn unit_cell(u: int, k: int) -> int {
    if u < 9 {
        u * 9 + k
    } else if u < 18 {
        k * 9 + (u - 9)
    } else {
        ((u - 18) / 3 * 3 + k / 3) * 9 + ((u - 18) % 3 * 3 + k % 3)
    }
}

/// Row-major decomposition of a flattened index: the identities that tie
/// `row_of`, `col_of` and `box_of` together.
proof fn lemma_flat_decompose(i: int)
    requires
        0 <= i < 81,
    ensures
        i == row_of(i) * 9 + col_of(i),
        0 <= row_of(i) < 9,
        0 <= col_of(i) < 9,
        box_of(i) == (row_of(i) / 3) * 3 + col_of(i) / 3,
        0 <= box_of(i) < 9,
{
    assert(i / 27 == (i / 9) / 3);
}

/// A flattened index rebuilt from its row and column.
proof fn lemma_flat_compose(r: int, c: int)
    requires
        0 <= r < 9,
        0 <= c < 9,
    ensures
        0 <= r * 9 + c < 81,
        row_of(r * 9 + c) == r,
        col_of(r * 9 + c) == c,
        box_of(r * 9 + c) == (r / 3) * 3 + c / 3,
{
    let i = r * 9 + c;
    assert(i / 9 == r && i % 9 == c);
    assert(i / 27 == (i / 9) / 3);
}

/// Each of a unit's nine slots is one of its member cells.
proof fn lemma_unit_cell_member(u: int, k: int)
    requires
        0 <= u < 27,
        0 <= k < 9,
    ensures
        unit_member(u, unit_cell(u, k)),
{
    if u < 9 {
        lemma_flat_compose(u, k);
    } else if u < 18 {
        lemma_flat_compose(k, u - 9);
    } else {
        let b = u - 18;
        lemma_flat_compose(b / 3 * 3 + k / 3, b % 3 * 3 + k % 3);
    }
}

/// Distinct slots of a unit are distinct cells.
proof fn lemma_unit_cell_injective(u: int, k1: int, k2: int)
    requires
        0 <= u < 27,
        0 <= k1 < 9,
        0 <= k2 < 9,
        k1 != k2,
    ensures
        unit_cell(u, k1) != unit_cell(u, k2),
{
    if u >= 18 {
        let b = u - 18;
        lemma_flat_compose(b / 3 * 3 + k1 / 3, b % 3 * 3 + k1 % 3);
        lemma_flat_compose(b / 3 * 3 + k2 / 3, b % 3 * 3 + k2 % 3);
    }
}

/// Every member cell of a unit sits in one of its nine slots.
proof fn lemma_unit_member_slot(u: int, i: int)
    requires
        0 <= u < 27,
        unit_member(u, i),
    ensures
        exists|k: int| 0 <= k < 9 && #[trigger] unit_cell(u, k) == i,
{
    lemma_flat_decompose(i);
    if u < 9 {
        assert(unit_cell(u, col_of(i)) == i);
    } else if u < 18 {
        assert(unit_cell(u, row_of(i)) == i);
    } else {
        let k = (row_of(i) % 3) * 3 + col_of(i) % 3;
        assert(unit_cell(u, k) == i);
    }
}

/// Cells of one unit share a row, a column, or a box.
proof fn lemma_unit_members_share(u: int, i: int, j: int)
    requires
        0 <= u < 27,
        unit_member(u, i),
        unit_member(u, j),
    ensures
        same_unit(i, j),
{
}

impl Board {
    /// A solved, consistent board fills every unit completely: for each of
    /// the 27 units and each digit 1..=9, some cell of the unit is settled
    /// on that digit. Together with consistency (no digit twice in a
    /// unit), the nine settled digits of every row, column and box are
    /// exactly a permutation of 1..=9.
    pub proof fn lemma_solved_units_complete(self, u: int, v: u8)
        requires
            self.wf(),
            self.spec_solved(),
            self.spec_valid(),
            0 <= u < 27,
            1 <= v <= 9,
        ensures
            exists|i: int| #[trigger] unit_member(u, i) && self.spec_digit_at(i) == v,
    {
        let ds = Seq::new(9, |k: int| self.spec_digit_at(unit_cell(u, k)));
        assert forall|k: int| 0 <= k < 9 implies 1 <= #[trigger] ds[k] <= 9 by {
            lemma_unit_cell_member(u, k);
        }
        assert forall|k1: int, k2: int| 0 <= k1 < k2 < 9 implies ds[k1] != ds[k2] by {
            lemma_unit_cell_member(u, k1);
            lemma_unit_cell_member(u, k2);
            lemma_unit_cell_injective(u, k1, k2);
            lemma_unit_members_share(u, unit_cell(u, k1), unit_cell(u, k2));
            assert(self.spec_settled_at(unit_cell(u, k1)));
            assert(self.spec_settled_at(unit_cell(u, k2)));
        }
        assert(ds.no_duplicates());
        ds.unique_seq_to_set();
        let all = seq![1u8, 2u8, 3u8, 4u8, 5u8, 6u8, 7u8, 8u8, 9u8];
        assert(all.no_duplicates());
        all.unique_seq_to_set();
        assert(ds.to_set().subset_of(all.to_set())) by {
            assert forall|d: u8| ds.to_set().contains(d) implies all.to_set().contains(d) by {
                assert(ds.contains(d));
                assert(all[d - 1] == d);
                assert(all.contains(d));
            }
        }
        vstd::set_lib::lemma_subset_equality(ds.to_set(), all.to_set());
        assert(all[v - 1] == v);
        assert(all.contains(v));
        assert(ds.to_set().contains(v));
        assert(ds.contains(v));
        let k = choose|k: int| 0 <= k < ds.len() && ds[k] == v;
        lemma_unit_cell_member(u, k);
        assert(unit_member(u, unit_cell(u, k)) && self.spec_digit_at(unit_cell(u, k)) == v);
    }
}

/// Whether the cells at flattened indices `i` and `j` share a row, a
/// column, or a 3x3 box.
fn same_unit_cells(i: usize, j: usize) -> (r: bool)
    requires
        i < 81,
        j < 81,
    ensures
        r == same_unit(i as int, j as int),
{
    i / 9 == j / 9 || i % 9 == j % 9 || (i / 27) * 3 + (i % 9) / 3 == (j / 27) * 3 + (j % 9) / 3
}

} // verus!
