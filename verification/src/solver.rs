//! Propagation to a fixed point, and the backtracking search that
//! resolves whatever ambiguity propagation leaves behind.

use vstd::prelude::*;

use crate::board::Board;
use crate::field::Field;
use crate::model::lemma_m_pick_unique;
use crate::model::lemma_mat_observations;
use crate::model::lemma_mat_pass;
use crate::model::lemma_mat_update;
use crate::model::m_pick;
use crate::model::m_pick_ok;
use crate::model::m_solved;
use crate::model::m_valid;
use crate::model::mat_of;
use crate::model::propagate;
use crate::model::search;
use crate::model::try_digits;

verus! {

/// How many cells of `s` are still unsettled (candidate count other than
/// one). The search shrinks this measure with every hypothesis it tries,
/// which bounds both the propagation loop and the recursion.
pub open spec fn count_unsettled(s: Seq<Field>) -> nat
    decreases s.len(),
{
    if s.len() == 0 {
        0nat
    } else {
        count_unsettled(s.drop_last()) + if s.last().values@.len() == 1 {
            0nat
        } else {
            1nat
        }
    }
}

/// Settling cells never raises the count of unsettled ones.
proof fn lemma_count_unsettled_le(s: Seq<Field>, t: Seq<Field>)
    requires
        s.len() == t.len(),
        forall|i: int|
            0 <= i < s.len() && (#[trigger] s[i]).values@.len() == 1 ==> t[i].values@.len() == 1,
    ensures
        count_unsettled(t) <= count_unsettled(s),
    decreases s.len(),
{
    if s.len() > 0 {
        assert(forall|i: int|
            0 <= i < s.len() - 1 && (#[trigger] s.drop_last()[i]).values@.len() == 1
                ==> t.drop_last()[i].values@.len() == 1);
        lemma_count_unsettled_le(s.drop_last(), t.drop_last());
    }
}

/// Settling at least one previously unsettled cell strictly lowers the
/// count of unsettled ones.
proof fn lemma_count_unsettled_lt(s: Seq<Field>, t: Seq<Field>, w: int)
    requires
        s.len() == t.len(),
        forall|i: int|
            0 <= i < s.len() && (#[trigger] s[i]).values@.len() == 1 ==> t[i].values@.len() == 1,
        0 <= w < s.len(),
        s[w].values@.len() != 1,
        t[w].values@.len() == 1,
    ensures
        count_unsettled(t) < count_unsettled(s),
    decreases s.len(),
{
    assert(forall|i: int|
        0 <= i < s.len() - 1 && (#[trigger] s.drop_last()[i]).values@.len() == 1
            ==> t.drop_last()[i].values@.len() == 1);
    if w == s.len() - 1 {
        lemma_count_unsettled_le(s.drop_last(), t.drop_last());
    } else {
        lemma_count_unsettled_lt(s.drop_last(), t.drop_last(), w);
    }
}

/// Solve the board in place. Propagation runs until it stops making
/// progress; if the board is then neither contradictory nor finished,
/// the search picks the unsettled cell with the fewest candidates
/// (first such cell in row-major order), and tries each of its digits in
/// increasing order on a fresh copy of the board, keeping the first copy
/// that comes back solved and consistent.
///
/// On return the board is well formed, every cell that was settled on
/// entry still holds the same digit, and the board is contradictory,
/// solved, or at a propagation fixed point. A run that finds no solution
/// leaves the propagated board behind, exactly as it stalled.
///
/// The final clause pins the run down completely: the result is `search`
/// of the input's candidate matrix, a function of the input alone. Any
/// two runs from equal boards therefore end in equal boards.
pub fn solve(board: &mut Board)
    requires
        old(board).wf(),
    ensures
        final(board).wf(),
        forall|i: int|
            0 <= i < 81 && old(board).spec_settled_at(i) ==> (#[trigger] final(board)@[i]).values@
                == old(board)@[i].values@,
        !final(board).spec_valid() || final(board).spec_solved()
            || !final(board).spec_pass_progress(),
        mat_of(*final(board)) == search(mat_of(*old(board))),
    decreases count_unsettled(old(board)@),
{
    let ghost b0: Board = *old(board);
    let mut progress = true;
    while progress
        invariant
            b0 == *old(board),
            board.wf(),
            b0.wf(),
            forall|i: int|
                0 <= i < 81 && b0.spec_settled_at(i) ==> (#[trigger] board@[i]).values@
                    == b0@[i].values@,
            !progress ==> !board.spec_pass_progress(),
            !progress ==> board.spec_valid(),
            progress ==> propagate(mat_of(b0)) == propagate(mat_of(*board)),
            !progress ==> propagate(mat_of(b0)) == mat_of(*board),
        decreases count_unsettled(board@), (if progress {
            1int
        } else {
            0int
        }),
    {
        let ghost prev: Board = *board;
        progress = board.solve();
        proof {
            lemma_mat_pass(prev, *board);
            lemma_mat_observations(prev);
            lemma_mat_observations(*board);
        }
        if !board.is_valid() {
            proof {
                assert(propagate(mat_of(prev)) == mat_of(*board));
                assert(search(mat_of(b0)) == mat_of(*board));
            }
            return;
        }
        proof {
            if progress {
                let k = choose|k: int|
                    0 <= k < 81 && !(#[trigger] prev.spec_settled_at(k)) && prev.spec_pass_values(
                        k,
                    ).len() == 1;
                assert(board@[k].values@.len() == 1);
                lemma_count_unsettled_lt(prev@, board@, k);
                assert(propagate(mat_of(prev)) == propagate(mat_of(*board)));
            } else {
                Board::lemma_pass_fixed_point(prev, *board);
                lemma_count_unsettled_le(prev@, board@);
                assert(propagate(mat_of(prev)) == mat_of(*board));
            }
        }
    }
    if board.is_solved() {
        proof {
            lemma_mat_observations(*board);
            assert(search(mat_of(b0)) == mat_of(*board));
        }
        return;
    }
    let pv = board.possible_values();
    proof {
        assert(exists|i: int| 0 <= i < 81 && !(#[trigger] board.spec_settled_at(i)));
        let i = choose|i: int| 0 <= i < 81 && !(#[trigger] board.spec_settled_at(i));
        let k = choose|k: int| 0 <= k < pv@.len() && (#[trigger] pv@[k]).0 == i;
        assert(pv@.len() > 0);
    }
    let mut best: usize = 0;
    let mut m: usize = 1;
    while m < pv.len()
        invariant
            0 < m <= pv@.len(),
            best < m,
            forall|k: int|
                0 <= k < m ==> pv@[best as int].1@.len() <= (#[trigger] pv@[k]).1@.len(),
            forall|k: int| 0 <= k < best ==> (#[trigger] pv@[k]).1@.len() > pv@[best as int].1@.len(),
        decreases pv@.len() - m,
    {
        if pv[m].1.len() < pv[best].1.len() {
            best = m;
        }
        m += 1;
    }
    let index = pv[best].0;
    let ghost b1: Board = *board;
    proof {
        lemma_count_unsettled_le(b0@, b1@);
        lemma_mat_observations(b1);
        let fm = mat_of(b1);
        assert forall|j: int| 0 <= j < 81 && (#[trigger] fm[j]).len() != 1 implies fm[index as int].len()
            <= fm[j].len() by {
            assert(!b1.spec_settled_at(j));
            let k = choose|k: int| 0 <= k < pv@.len() && (#[trigger] pv@[k]).0 == j;
            assert(pv@[k].1@.len() == fm[j].len());
            assert(pv@[best as int].1@.len() <= pv@[k].1@.len());
        }
        assert forall|j: int| 0 <= j < index as int && (#[trigger] fm[j]).len() != 1 implies fm[j].len()
            > fm[index as int].len() by {
            assert(!b1.spec_settled_at(j));
            let k = choose|k: int| 0 <= k < pv@.len() && (#[trigger] pv@[k]).0 == j;
            if k > best as int {
                assert(pv@[best as int].0 < pv@[k].0);
            }
            assert(k < best as int);
            assert(pv@[k].1@.len() > pv@[best as int].1@.len());
        }
        assert(m_pick_ok(fm, index as int));
        assert(m_pick_ok(fm, m_pick(fm)));
        lemma_m_pick_unique(fm, m_pick(fm), index as int);
        assert(fm[index as int] == b1@[index as int].values@);
        assert(search(mat_of(b0)) == try_digits(fm, index as int, b1@[index as int].values@, 0));
    }
    let vals_len = pv[best].1.len();
    let mut t: usize = 0;
    while t < vals_len
        invariant
            b0 == *old(board),
            *board == b1,
            b0.wf(),
            b1.wf(),
            forall|i: int|
                0 <= i < 81 && b0.spec_settled_at(i) ==> (#[trigger] b1@[i]).values@
                    == b0@[i].values@,
            !b1.spec_pass_progress(),
            b1.spec_valid(),
            count_unsettled(b1@) <= count_unsettled(b0@),
            best < pv@.len(),
            index == pv@[best as int].0,
            index < 81,
            !b1.spec_settled_at(index as int),
            pv@[best as int].1@ == b1@[index as int].values@,
            vals_len == pv@[best as int].1@.len(),
            t <= vals_len,
            search(mat_of(b0)) == try_digits(
                mat_of(b1),
                index as int,
                b1@[index as int].values@,
                t as int,
            ),
        decreases vals_len - t,
    {
        let v = pv[best].1[t];
        proof {
            assert(b1@[index as int].values@[t as int] == v);
            assert(1 <= v <= 9);
        }
        let mut single: Vec<u8> = Vec::new();
        single.push(v);
        let mut tboard = board.duplicate();
        tboard.update(index, single);
        proof {
            lemma_count_unsettled_lt(b1@, tboard@, index as int);
            assert(single@ =~= seq![v]);
            lemma_mat_update(b1, tboard, index as int, v);
        }
        solve(&mut tboard);
        proof {
            lemma_mat_observations(tboard);
        }
        if tboard.is_solved() {
            if tboard.is_valid() {
                proof {
                    assert forall|i: int|
                        0 <= i < 81 && b0.spec_settled_at(i) implies (#[trigger] tboard@[i]).values@
                        == b0@[i].values@ by {
                        assert(b1@[i].values@ == b0@[i].values@);
                        assert(i != index as int);
                    }
                    assert(m_solved(mat_of(tboard)) && m_valid(mat_of(tboard)));
                    assert(search(mat_of(b0)) == mat_of(tboard));
                }
                *board = tboard;
                return;
            }
        }
        proof {
            assert(!(m_solved(mat_of(tboard)) && m_valid(mat_of(tboard))));
            assert(try_digits(mat_of(b1), index as int, b1@[index as int].values@, t as int)
                == try_digits(mat_of(b1), index as int, b1@[index as int].values@, t + 1));
        }
        t += 1;
    }
    proof {
        assert(search(mat_of(b0)) == mat_of(b1));
    }
}

} // verus!
