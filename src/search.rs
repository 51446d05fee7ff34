use vstd::prelude::*;

verus! {

/// How many times the step is reversed and halved. The search starts at
/// -1e20 with a step of 5e19, and the tolerance on the step is 1e-20:
/// 5e19 / 2^131 is still above it and 5e19 / 2^132 is below, so the search
/// stops after this many halvings. A caller that starts elsewhere must
/// change this count with it.
pub const HALVINGS: u32 = 132;

/// Most steps taken in one direction before the search gives up on an
/// equation whose residual keeps falling.
pub const MAX_ADVANCES: u64 = 1_000_000;

/// A bound on the moves left to a search: each `Advance` or `Turn` lowers it.
pub open spec fn moves_left(turns: nat, advances: nat) -> nat {
    let t: nat = if turns >= HALVINGS { 0 } else { (HALVINGS - turns) as nat };
    let a: nat = if advances >= MAX_ADVANCES { 0 } else { (MAX_ADVANCES - advances) as nat };
    t * (MAX_ADVANCES as nat + 1) + a
}

/// What the root search does next with its point `x` and step `dx`.
#[derive(Debug, PartialEq, Eq, Structural)]
pub enum Move {
    /// The residual falls at `x + dx`: move there.
    Advance,
    /// The residual does not fall: move to `x + dx` all the same, then reverse
    /// the step and halve it.
    Turn,
    /// The step is below the tolerance: undo the last reversal and halving,
    /// move by that step, and take `x` as the root.
    Finish,
    /// Too many steps in one direction: the equation has no root in reach.
    GiveUp,
}

/// The decisions of the derivative-free line search for a root: it steps while
/// the residual falls, and reverses and halves the step when it stops falling.
pub struct Search {
    turns: u32,
    advances: u64,
}

impl Search {
    pub closed spec fn turns(&self) -> nat {
        self.turns as nat
    }

    pub closed spec fn advances(&self) -> nat {
        self.advances as nat
    }

    /// Whether the search is over: it needs no more residuals.
    pub open spec fn spec_finished(&self) -> bool {
        self.turns() >= HALVINGS
    }

    /// A search that has not moved yet.
    pub fn new() -> (r: Search)
        ensures
            r.turns() == 0,
            r.advances() == 0,
    {
        Search { turns: 0, advances: 0 }
    }

    /// Whether the next move needs the residuals at `x` and `x + dx`.
    pub fn wants_probe(&self) -> (r: bool)
        ensures
            r == !self.spec_finished(),
    {
        self.turns < HALVINGS
    }

    /// The next move, given whether the residual at `x + dx` is below the one
    /// at `x` (ignored once the search is over).
    pub fn next_move(&mut self, improves: bool) -> (m: Move)
        ensures
            old(self).spec_finished() ==> m == Move::Finish && *final(self) == *old(self),
            !old(self).spec_finished() && improves && old(self).advances() >= MAX_ADVANCES ==> m
                == Move::GiveUp && *final(self) == *old(self),
            !old(self).spec_finished() && improves && old(self).advances() < MAX_ADVANCES ==> m
                == Move::Advance && final(self).turns() == old(self).turns() && final(self).advances()
                == old(self).advances() + 1,
            !old(self).spec_finished() && !improves ==> m == Move::Turn && final(self).turns()
                == old(self).turns() + 1 && final(self).advances() == 0,
            (m == Move::Advance || m == Move::Turn) ==> moves_left(final(self).turns(), final(self).advances())
                < moves_left(old(self).turns(), old(self).advances()),
    {
        if self.turns >= HALVINGS {
            Move::Finish
        } else if improves {
            if self.advances >= MAX_ADVANCES {
                Move::GiveUp
            } else {
                self.advances = self.advances + 1;
                Move::Advance
            }
        } else {
            proof {
                let t = (HALVINGS - self.turns) as nat;
                let m1 = MAX_ADVANCES as nat + 1;
                assert(t * m1 == (t - 1) * m1 + m1) by (nonlinear_arith)
                    requires t >= 1;
            }
            self.turns = self.turns + 1;
            self.advances = 0;
            Move::Turn
        }
    }
}

} // verus!
