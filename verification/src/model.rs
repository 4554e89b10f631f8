//! The solving run as a mathematical function.
//!
//! Here the grid is a bare candidate matrix: 81 rows, one candidate list
//! per cell. Over it stand the pass, the propagation fixed point, the
//! branching-cell choice and the whole search, each as a spec function.
//! The executable solver is proved to leave behind exactly `search` of
//! its input, so two runs from one input agree cell for cell: the run is
//! deterministic.

use vstd::prelude::*;

use crate::board::same_unit;
use crate::board::Board;

verus! {

/// The candidate matrix of a board: row `i` is the candidate list of the
/// cell at flattened index `i`.
pub open spec fn mat_of(b: Board) -> Seq<Seq<u8>> {
    Seq::new(81, |i: int| b@[i].values@)
}

/// Digit `v` is ruled out for cell `i`: some other cell of a shared unit
/// is settled on it.
pub open spec fn m_excluded(m: Seq<Seq<u8>>, i: int, v: u8) -> bool {
    exists|j: int|
        0 <= j < 81 && j != i && same_unit(i, j) && (#[trigger] m[j]).len() == 1 && m[j][0] == v
}

/// The digits 1..=hi no settled peer of cell `i` has claimed, ascending.
pub open spec fn m_pass_upto(m: Seq<Seq<u8>>, i: int, hi: int) -> Seq<u8>
    decreases hi,
{
    if hi <= 0 {
        Seq::empty()
    } else if !m_excluded(m, i, hi as u8) {
        m_pass_upto(m, i, hi - 1).push(hi as u8)
    } else {
        m_pass_upto(m, i, hi - 1)
    }
}

/// What one pass leaves in row `i`: a settled row stays, any other is
/// recomputed from the snapshot `m`.
pub open spec fn m_pass_row(m: Seq<Seq<u8>>, i: int) -> Seq<u8> {
    if m[i].len() == 1 {
        m[i]
    } else {
        m_pass_upto(m, i, 9)
    }
}

/// One whole propagation pass over the snapshot `m`.
pub open spec fn m_pass(m: Seq<Seq<u8>>) -> Seq<Seq<u8>> {
    Seq::new(81, |i: int| m_pass_row(m, i))
}

/// No empty cell, and no digit settled twice within a unit.
pub open spec fn m_valid(m: Seq<Seq<u8>>) -> bool {
    &&& forall|i: int| 0 <= i < 81 ==> (#[trigger] m[i]).len() > 0
    &&& forall|i: int, j: int|
        #![trigger m[i], m[j]]
        0 <= i < 81 && 0 <= j < 81 && i != j && same_unit(i, j) && m[i].len() == 1 && m[j].len()
            == 1 ==> m[i][0] != m[j][0]
}

/// Every cell pinned to one digit.
pub open spec fn m_solved(m: Seq<Seq<u8>>) -> bool {
    forall|i: int| 0 <= i < 81 ==> (#[trigger] m[i]).len() == 1
}

/// A pass over `m` reports progress: some unsettled row recomputes to a
/// single digit.
pub open spec fn m_progress(m: Seq<Seq<u8>>) -> bool {
    exists|i: int|
        0 <= i < 81 && (#[trigger] m[i]).len() != 1 && m_pass_upto(m, i, 9).len() == 1
}

/// How many rows of `m` are unsettled.
pub open spec fn m_count(m: Seq<Seq<u8>>) -> nat
    decreases m.len(),
{
    if m.len() == 0 {
        0nat
    } else {
        m_count(m.drop_last()) + if m.last().len() == 1 {
            0nat
        } else {
            1nat
        }
    }
}

/// Settling rows never raises the count of unsettled ones.
proof fn lemma_m_count_le(s: Seq<Seq<u8>>, t: Seq<Seq<u8>>)
    requires
        s.len() == t.len(),
        forall|i: int| 0 <= i < s.len() && (#[trigger] s[i]).len() == 1 ==> t[i].len() == 1,
    ensures
        m_count(t) <= m_count(s),
    decreases s.len(),
{
    if s.len() > 0 {
        assert(forall|i: int|
            0 <= i < s.len() - 1 && (#[trigger] s.drop_last()[i]).len() == 1
                ==> t.drop_last()[i].len() == 1);
        lemma_m_count_le(s.drop_last(), t.drop_last());
    }
}

/// Settling one more row strictly lowers the count of unsettled ones.
proof fn lemma_m_count_lt(s: Seq<Seq<u8>>, t: Seq<Seq<u8>>, w: int)
    requires
        s.len() == t.len(),
        forall|i: int| 0 <= i < s.len() && (#[trigger] s[i]).len() == 1 ==> t[i].len() == 1,
        0 <= w < s.len(),
        s[w].len() != 1,
        t[w].len() == 1,
    ensures
        m_count(t) < m_count(s),
    decreases s.len(),
{
    assert(forall|i: int|
        0 <= i < s.len() - 1 && (#[trigger] s.drop_last()[i]).len() == 1
            ==> t.drop_last()[i].len() == 1);
    if w == s.len() - 1 {
        lemma_m_count_le(s.drop_last(), t.drop_last());
    } else {
        lemma_m_count_lt(s.drop_last(), t.drop_last(), w);
    }
}

/// A pass keeps every settled row, so it never raises the count.
proof fn lemma_m_pass_le(m: Seq<Seq<u8>>)
    requires
        m.len() == 81,
    ensures
        m_pass(m).len() == 81,
        m_count(m_pass(m)) <= m_count(m),
{
    lemma_m_count_le(m, m_pass(m));
}

/// A pass that makes progress settles a new row, strictly lowering the
/// count.
pub proof fn lemma_m_pass_lt(m: Seq<Seq<u8>>)
    requires
        m.len() == 81,
        m_progress(m),
    ensures
        m_count(m_pass(m)) < m_count(m),
{
    let w = choose|i: int|
        0 <= i < 81 && (#[trigger] m[i]).len() != 1 && m_pass_upto(m, i, 9).len() == 1;
    assert(m_pass(m)[w].len() == 1);
    lemma_m_count_lt(m, m_pass(m), w);
}

/// Pinning an unsettled row to one digit strictly lowers the count.
pub proof fn lemma_m_update_lt(f: Seq<Seq<u8>>, index: int, v: u8)
    requires
        f.len() == 81,
        0 <= index < 81,
        f[index].len() != 1,
    ensures
        f.update(index, seq![v]).len() == 81,
        m_count(f.update(index, seq![v])) < m_count(f),
{
    lemma_m_count_lt(f, f.update(index, seq![v]), index);
}

/// Propagation run to its fixed point: pass after pass, stopping as soon
/// as a pass makes the matrix inconsistent or reports no progress. This
/// mirrors the solver's propagation loop, which always runs the pass at
/// least once.
pub open spec fn propagate(m: Seq<Seq<u8>>) -> Seq<Seq<u8>>
    decreases m_count(m),
    when m.len() == 81
{
    let stepped = m_pass(m);
    if !m_valid(stepped) {
        stepped
    } else if m_progress(m) {
        proof {
            lemma_m_pass_lt(m);
        }
        propagate(stepped)
    } else {
        stepped
    }
}

/// Propagation only ever settles cells, so it never raises the count.
pub proof fn lemma_propagate_le(m: Seq<Seq<u8>>)
    requires
        m.len() == 81,
    ensures
        propagate(m).len() == 81,
        m_count(propagate(m)) <= m_count(m),
    decreases m_count(m),
{
    let stepped = m_pass(m);
    lemma_m_pass_le(m);
    if m_valid(stepped) && m_progress(m) {
        lemma_m_pass_lt(m);
        lemma_propagate_le(stepped);
    }
}

/// The branching cell the search takes from `m`: unsettled, with no
/// unsettled cell anywhere holding fewer candidates, and no unsettled
/// cell before it holding as few. At most one cell qualifies.
pub open spec fn m_pick_ok(m: Seq<Seq<u8>>, i: int) -> bool {
    &&& 0 <= i < 81
    &&& m[i].len() != 1
    &&& forall|j: int| 0 <= j < 81 && (#[trigger] m[j]).len() != 1 ==> m[i].len() <= m[j].len()
    &&& forall|j: int| 0 <= j < i && (#[trigger] m[j]).len() != 1 ==> m[j].len() > m[i].len()
}

/// The one cell satisfying `m_pick_ok`, where such a cell exists.
pub open spec fn m_pick(m: Seq<Seq<u8>>) -> int {
    choose|i: int| m_pick_ok(m, i)
}

/// The branching-cell condition pins the cell down uniquely.
pub proof fn lemma_m_pick_unique(m: Seq<Seq<u8>>, i1: int, i2: int)
    requires
        m_pick_ok(m, i1),
        m_pick_ok(m, i2),
    ensures
        i1 == i2,
{
}

/// The whole solving run from `m`: propagate; if the outcome is
/// contradictory or finished, keep it; otherwise branch over the chosen
/// cell's candidates in ascending order, keeping the first branch that
/// comes back solved and consistent, and the stalled matrix itself when
/// every branch fails.
pub open spec fn search(m: Seq<Seq<u8>>) -> Seq<Seq<u8>>
    decreases m_count(m), 1int, 0int,
    when m.len() == 81
{
    let f = propagate(m);
    if !m_valid(f) || m_solved(f) {
        f
    } else if m_pick_ok(f, m_pick(f)) {
        proof {
            lemma_propagate_le(m);
        }
        try_digits(f, m_pick(f), f[m_pick(f)], 0)
    } else {
        f
    }
}

/// The branches of `search` at cell `index`, tried from position `t` of
/// the candidate list `vals` on: each hypothesis solves a copy of `f`
/// with the cell pinned, and the first solved, consistent outcome wins.
/// When none does, `f` itself is the outcome.
pub open spec fn try_digits(f: Seq<Seq<u8>>, index: int, vals: Seq<u8>, t: int) -> Seq<Seq<u8>>
    decreases m_count(f), 0int, vals.len() - t,
    when f.len() == 81 && 0 <= index < 81 && f[index].len() != 1
{
    if t < 0 || t >= vals.len() {
        f
    } else {
        proof {
            lemma_m_update_lt(f, index, vals[t]);
        }
        let child = search(f.update(index, seq![vals[t]]));
        if m_solved(child) && m_valid(child) {
            child
        } else {
            try_digits(f, index, vals, t + 1)
        }
    }
}

/// Round-trip determinism: two solving runs that start from boards with
/// equal candidate matrices end in boards with equal candidates in every
/// cell, since each run returns exactly `search` of its input.
pub proof fn lemma_search_deterministic(m: Seq<Seq<u8>>, left: Board, right: Board)
    requires
        mat_of(left) == search(m),
        mat_of(right) == search(m),
    ensures
        forall|i: int| 0 <= i < 81 ==> (#[trigger] left@[i]).values@ == right@[i].values@,
{
    assert forall|i: int| 0 <= i < 81 implies (#[trigger] left@[i]).values@
        == right@[i].values@ by {
        assert(mat_of(left)[i] == left@[i].values@);
        assert(mat_of(right)[i] == right@[i].values@);
    }
}

/// A board and its matrix exclude the same digits from each cell.
proof fn lemma_mat_excluded(b: Board, i: int, v: u8)
    requires
        b@.len() == 81,
        0 <= i < 81,
    ensures
        m_excluded(mat_of(b), i, v) == b.spec_excluded(i, v),
{
    let m = mat_of(b);
    if m_excluded(m, i, v) {
        let j = choose|j: int|
            0 <= j < 81 && j != i && same_unit(i, j) && (#[trigger] m[j]).len() == 1 && m[j][0]
                == v;
        assert(b.spec_settled_at(j) && b.spec_digit_at(j) == v);
    }
    if b.spec_excluded(i, v) {
        let j = choose|j: int|
            0 <= j < 81 && j != i && same_unit(i, j) && #[trigger] b.spec_settled_at(j)
                && b.spec_digit_at(j) == v;
        assert(m[j].len() == 1 && m[j][0] == v);
    }
}

/// A board and its matrix recompute the same candidate lists.
proof fn lemma_mat_upto(b: Board, i: int, hi: int)
    requires
        b@.len() == 81,
        0 <= i < 81,
        0 <= hi <= 9,
    ensures
        m_pass_upto(mat_of(b), i, hi) == b.spec_pass_values_upto(i, hi),
    decreases hi,
{
    if hi > 0 {
        lemma_mat_excluded(b, i, hi as u8);
        lemma_mat_upto(b, i, hi - 1);
    }
}

/// A board and its matrix agree on validity, on being solved, and on
/// whether a pass would report progress.
pub proof fn lemma_mat_observations(b: Board)
    requires
        b@.len() == 81,
    ensures
        m_valid(mat_of(b)) == b.spec_valid(),
        m_solved(mat_of(b)) == b.spec_solved(),
        m_progress(mat_of(b)) == b.spec_pass_progress(),
{
    let m = mat_of(b);
    assert forall|i: int| 0 <= i < 81 implies #[trigger] m_pass_upto(m, i, 9)
        == b.spec_pass_values_upto(i, 9) by {
        lemma_mat_upto(b, i, 9);
    }
    if b.spec_valid() {
        assert forall|i: int| 0 <= i < 81 implies (#[trigger] m[i]).len() > 0 by {
            assert(b@[i].values@.len() > 0);
        }
        assert forall|i: int, j: int|
            #![trigger m[i], m[j]]
            0 <= i < 81 && 0 <= j < 81 && i != j && same_unit(i, j) && m[i].len() == 1 && m[j].len()
                == 1 implies m[i][0] != m[j][0] by {
            assert(b.spec_settled_at(i) && b.spec_settled_at(j));
        }
        assert(m_valid(m));
    }
    if m_valid(m) {
        assert forall|i: int| 0 <= i < 81 implies (#[trigger] b@[i]).values@.len() > 0 by {
            assert(m[i].len() > 0);
        }
        assert forall|i: int, j: int|
            #![trigger b.spec_settled_at(i), b.spec_settled_at(j)]
            0 <= i < 81 && 0 <= j < 81 && i != j && same_unit(i, j) && b.spec_settled_at(i)
                && b.spec_settled_at(j) implies b.spec_digit_at(i) != b.spec_digit_at(j) by {
            assert(m[i].len() == 1 && m[j].len() == 1);
        }
        assert(b.spec_valid());
    }
    if b.spec_solved() {
        assert forall|i: int| 0 <= i < 81 implies (#[trigger] m[i]).len() == 1 by {
            assert(b.spec_settled_at(i));
        }
        assert(m_solved(m));
    }
    if m_solved(m) {
        assert forall|i: int| 0 <= i < 81 implies #[trigger] b.spec_settled_at(i) by {
            assert(m[i].len() == 1);
        }
        assert(b.spec_solved());
    }
    if m_progress(m) {
        let i = choose|i: int|
            0 <= i < 81 && (#[trigger] m[i]).len() != 1 && m_pass_upto(m, i, 9).len() == 1;
        assert(!b.spec_settled_at(i) && b.spec_pass_values(i).len() == 1);
    }
    if b.spec_pass_progress() {
        let i = choose|i: int|
            0 <= i < 81 && !(#[trigger] b.spec_settled_at(i)) && b.spec_pass_values(i).len() == 1;
        assert(m[i].len() != 1 && m_pass_upto(m, i, 9).len() == 1);
    }
}

/// One exec pass takes a board's matrix to `m_pass` of it.
pub proof fn lemma_mat_pass(pre: Board, post: Board)
    requires
        pre.wf(),
        Board::spec_pass_rel(pre, post),
    ensures
        mat_of(post) == m_pass(mat_of(pre)),
{
    let m = mat_of(pre);
    assert forall|i: int| 0 <= i < 81 implies mat_of(post)[i] == m_pass(m)[i] by {
        lemma_mat_upto(pre, i, 9);
    }
    assert(mat_of(post) =~= m_pass(m));
}

/// Copying a board and pinning one cell takes its matrix to `update` of
/// it.
pub proof fn lemma_mat_update(before: Board, after: Board, index: int, v: u8)
    requires
        before@.len() == 81,
        after@.len() == 81,
        0 <= index < 81,
        after@[index].values@ == seq![v],
        forall|j: int| 0 <= j < 81 && j != index ==> (#[trigger] after@[j]).values@
            == before@[j].values@,
    ensures
        mat_of(after) == mat_of(before).update(index, seq![v]),
{
    assert(mat_of(after) =~= mat_of(before).update(index, seq![v]));
}

} // verus!
