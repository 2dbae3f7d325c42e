//! Tower of Hanoi: the moves that carry a stack of disks from one peg to
//! another, smallest disk numbered 0.
use vstd::prelude::*;

verus! {

/// Disk `disk` goes from peg `from` to peg `to`.
#[derive(Debug, Clone, Copy, PartialEq, Eq, Structural)]
pub struct HanoiMove {
    pub disk: i32,
    pub from: i32,
    pub to: i32,
}

/// The classic move sequence for disks `0..n`: the `n - 1` smaller disks to
/// the spare peg, the largest to its target, the smaller ones on top of it.
pub open spec fn hanoi_moves(n: nat, from: i32, to: i32, aux: i32) -> Seq<HanoiMove>
    decreases n,
{
    if n == 0 {
        Seq::empty()
    } else {
        hanoi_moves((n - 1) as nat, from, aux, to) + seq![
            HanoiMove { disk: (n - 1) as i32, from, to },
        ] + hanoi_moves((n - 1) as nat, aux, to, from)
    }
}

/// `hanoi_moves` holds `2^n - 1` moves.
pub proof fn lemma_hanoi_len(n: nat, from: i32, to: i32, aux: i32)
    ensures
        hanoi_moves(n, from, to, aux).len() + 1 == vstd::arithmetic::power2::pow2(n),
    decreases n,
{
    if n > 0 {
        vstd::arithmetic::power2::lemma_pow2_unfold(n);
        lemma_hanoi_len((n - 1) as nat, from, aux, to);
        lemma_hanoi_len((n - 1) as nat, aux, to, from);
    } else {
        vstd::arithmetic::power2::lemma2_to64();
    }
}

/// Records that disk `disk` now lies on peg `to`.
pub fn hanoi_move(disk: i32, to: i32, state: &mut Vec<i32>)
    requires
        0 <= disk < old(state)@.len(),
    ensures
        final(state)@ == old(state)@.update(disk as int, to),
{
    state.set(disk as usize, to);
}

/// Moves disks `0..n` from peg `from` to peg `to` with `aux` as the spare:
/// appends the moves to `moves` and keeps in `state` the peg of each disk.
pub fn solve_hanoi_recursive(
    n: i32,
    from: i32,
    to: i32,
    aux: i32,
    state: &mut Vec<i32>,
    moves: &mut Vec<HanoiMove>,
)
    requires
        0 <= n <= old(state)@.len(),
    ensures
        final(moves)@ == old(moves)@ + hanoi_moves(n as nat, from, to, aux),
        final(state)@.len() == old(state)@.len(),
        forall|i: int| 0 <= i < n ==> #[trigger] final(state)@[i] == to,
        forall|i: int| n <= i < old(state)@.len() ==> #[trigger] final(state)@[i] == old(state)@[i],
    decreases n,
{
    if n == 0 {
        assert(moves@ == old(moves)@ + Seq::<HanoiMove>::empty());
        return;
    }
    solve_hanoi_recursive(n - 1, from, aux, to, state, moves);
    hanoi_move(n - 1, to, state);
    moves.push(HanoiMove { disk: n - 1, from, to });
    solve_hanoi_recursive(n - 1, aux, to, from, state, moves);
    assert(moves@ == old(moves)@ + hanoi_moves(n as nat, from, to, aux));
}

} // verus!
