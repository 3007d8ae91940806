//! The annealing engine's state and its one-iteration step.  The engine
//! owns the live solution, the best-seen snapshot, both exact scores and
//! the pseudo-random generator.  A step draws a move family, proposes a
//! candidate, and commits it at once when the delta is not worsening;
//! otherwise it hands the caller the delta and the generator's uniform
//! draw so the caller can take the Metropolis decision (a computation on
//! reals) and answer through `resolve`.  Every step keeps the state well
//! formed, keeps both scores exact, and never raises the best score.

use vstd::prelude::*;
use crate::rng::{Xoshiro256, seeded};
use crate::score::{lemma_tour_cost_bounds, MAX_TOUR_LEN};
use crate::state::{
    Input, State, input_ok, state_ok, state_metric, state_cost, lemma_state_metric_ok,
};
use crate::ops::{Move, moved_orders, moved_points, moved_cost, move_struct_ok, apply_move};
use crate::neighbors::{
    propose_insert, propose_remove_or_swap, propose_relocate, propose_two_opt, insert_proposal,
    two_opt_proposal, swap_proposal,
};
use crate::rng::{next_state, next_value};

verus! {

/// The engine's whole state.
pub struct Annealer {
    pub solution: State,
    pub best_solution: State,
    pub current_score: i64,
    pub best_score: i64,
    pub rng: Xoshiro256,
}

/// What one step reports: either the iteration is settled (committed,
/// rejected or skipped), or the caller owes a Metropolis decision on a
/// worsening move.  `bits` are the generator's 52 uniform fraction
/// bits: the draw in `[0, 1)` equals `bits / 2^52`.
pub enum StepOutcome {
    Settled,
    NeedDecision { mv: Move, delta: i64, bits: u64 },
}

/// Two states with the same contents.
pub open spec fn same_state(a: State, b: State) -> bool {
    a.points@ == b.points@ && a.orders@ == b.orders@
}

/// The engine did nothing this iteration beyond advancing the
/// generator.
pub open spec fn skipped(pre: Annealer, post: Annealer, rng_after: Xoshiro256) -> bool {
    &&& same_state(post.solution, pre.solution)
    &&& same_state(post.best_solution, pre.best_solution)
    &&& post.current_score == pre.current_score
    &&& post.best_score == pre.best_score
    &&& post.rng == rng_after
}

/// The engine committed `mv` with delta `d`, advanced the generator,
/// and snapshotted the solution exactly when the score improved on the
/// best seen.
pub open spec fn committed(
    pre: Annealer,
    post: Annealer,
    mv: Move,
    d: int,
    rng_after: Xoshiro256,
) -> bool {
    &&& post.solution.orders@ == moved_orders(pre.solution.orders@, mv)
    &&& post.solution.points@ == moved_points(pre.solution.points@, mv)
    &&& post.current_score == pre.current_score + d
    &&& post.rng == rng_after
    &&& (pre.current_score + d >= pre.best_score ==> post.best_score == pre.best_score
        && same_state(post.best_solution, pre.best_solution))
    &&& (pre.current_score + d < pre.best_score ==> post.best_score == pre.current_score + d
        && same_state(post.best_solution, post.solution))
}

/// The engine's invariant: both states well formed, both scores exact,
/// and the best no worse than the current.
pub open spec fn annealer_ok(inp: Input, a: Annealer) -> bool {
    &&& state_ok(inp, a.solution)
    &&& state_ok(inp, a.best_solution)
    &&& a.current_score == state_cost(inp, a.solution)
    &&& a.best_score == state_cost(inp, a.best_solution)
    &&& a.best_score <= a.current_score
}

impl Annealer {
    /// Starts the engine on a solution: scores it, snapshots it as the
    /// best seen, and seeds the generator.
    pub fn new(input: &Input, solution: State, seed: u64) -> (a: Annealer)
        requires
            input_ok(*input),
            state_ok(*input, solution),
        ensures
            annealer_ok(*input, a),
            same_state(a.solution, solution),
            same_state(a.best_solution, solution),
            a.current_score == state_cost(*input, solution),
            a.best_score == a.current_score,
            a.rng == seeded(seed),
    {
        let current_score = solution.calc_score_all(input);
        let best_solution = solution.duplicate();
        proof {
            assert(state_metric(*input, best_solution) == state_metric(*input, solution));
        }
        Annealer {
            solution,
            best_solution,
            current_score,
            best_score: current_score,
            rng: Xoshiro256::new(seed),
        }
    }

    /// Commits a sound move: applies it, adjusts the running score by
    /// its delta, and snapshots the solution whenever the score
    /// strictly improves on the best seen.
    fn commit(&mut self, input: &Input, mv: Move, delta: i64)
        requires
            input_ok(*input),
            annealer_ok(*input, *old(self)),
            move_struct_ok(*input, old(self).solution, mv),
            moved_cost(*input, old(self).solution, mv) == old(self).current_score + delta,
        ensures
            annealer_ok(*input, *final(self)),
            final(self).best_score <= old(self).best_score,
            final(self).solution.orders@ == moved_orders(old(self).solution.orders@, mv),
            final(self).solution.points@ == moved_points(old(self).solution.points@, mv),
            final(self).current_score == old(self).current_score + delta,
            final(self).rng == old(self).rng,
            old(self).current_score + delta >= old(self).best_score ==> final(self).best_score
                == old(self).best_score && same_state(
                final(self).best_solution,
                old(self).best_solution,
            ),
            old(self).current_score + delta < old(self).best_score ==> final(self).best_score
                == old(self).current_score + delta && same_state(
                final(self).best_solution,
                final(self).solution,
            ),
    {
        apply_move(&mut self.solution, input, mv);
        proof {
            lemma_state_metric_ok(*input, self.solution);
            lemma_tour_cost_bounds(state_metric(*input, self.solution), self.solution.orders@);
        }
        self.current_score = self.current_score + delta;
        if self.current_score < self.best_score {
            self.best_solution = self.solution.duplicate();
            self.best_score = self.current_score;
            proof {
                assert(state_metric(*input, self.best_solution) == state_metric(
                    *input,
                    self.solution,
                ));
            }
        }
    }

    /// One iteration: draw a move family, propose a candidate, and
    /// either settle it at once (commit a non-worsening move, or skip
    /// when no candidate was found) or hand back a worsening candidate
    /// for the caller's Metropolis decision.  The best score never
    /// rises, and the reported candidate is sound for the state the
    /// step leaves behind.
    pub fn step(&mut self, input: &Input, spread: i32) -> (r: StepOutcome)
        requires
            input_ok(*input),
            annealer_ok(*input, *old(self)),
            0 <= spread <= 1000,
        ensures
            annealer_ok(*input, *final(self)),
            final(self).best_score <= old(self).best_score,
            r matches StepOutcome::NeedDecision { mv, delta, bits } ==> ({
                &&& delta > 0
                &&& move_struct_ok(*input, final(self).solution, mv)
                &&& moved_cost(*input, final(self).solution, mv) == final(self).current_score
                    + delta
                &&& same_state(final(self).solution, old(self).solution)
                &&& same_state(final(self).best_solution, old(self).best_solution)
                &&& final(self).current_score == old(self).current_score
                &&& final(self).best_score == old(self).best_score
            }),
            // the whole iteration is a function of the generator: the
            // family the first draw selects, the candidate that family
            // proposes, and what became of it
            ({
                let pre = *old(self);
                let post = *final(self);
                let s0 = pre.rng;
                let nt = next_value(s0) % 10;
                let s1 = next_state(s0);
                let bits_mask = 0xf_ffff_ffff_ffffu64;
                &&& (nt < 2 ==> ({
                    if input.m >= 1 && pre.solution.orders@.len() + 1 <= MAX_TOUR_LEN {
                        let rng2 = next_state(next_state(s1));
                        match insert_proposal(*input, pre.solution, s1) {
                            None => r is Settled && skipped(pre, post, rng2),
                            Some(pd) => if pd.1 <= 0 {
                                r is Settled && committed(pre, post, pd.0, pd.1, rng2)
                            } else {
                                r matches StepOutcome::NeedDecision { mv, delta, bits } && mv
                                    == pd.0 && delta as int == pd.1 && bits == (next_value(rng2)
                                    & bits_mask) && post.rng == next_state(rng2)
                            },
                        }
                    } else {
                        r is Settled && skipped(pre, post, s1)
                    }
                }))
                &&& (2 <= nt < 4 ==> ({
                    let sp = swap_proposal(*input, pre.solution, s1);
                    match sp.0 {
                        None => r is Settled && skipped(pre, post, sp.1),
                        Some(pd) => if pd.1 <= 0 {
                            r is Settled && committed(pre, post, pd.0, pd.1, sp.1)
                        } else {
                            r matches StepOutcome::NeedDecision { mv, delta, bits } && mv == pd.0
                                && delta as int == pd.1 && bits == (next_value(sp.1) & bits_mask)
                                && post.rng == next_state(sp.1)
                        },
                    }
                }))
                &&& (4 <= nt < 5 ==> ({
                    if input.m >= 1 && 2 * pre.solution.orders@.len() <= MAX_TOUR_LEN {
                        let rng4 = next_state(next_state(next_state(s1)));
                        &&& (r is Settled ==> post.rng == rng4)
                        &&& (r matches StepOutcome::NeedDecision { mv, delta, bits } ==> mv
                            is Relocate && bits == (next_value(rng4) & bits_mask) && post.rng
                            == next_state(rng4))
                    } else {
                        r is Settled && skipped(pre, post, s1)
                    }
                }))
                &&& (nt >= 5 ==> ({
                    if pre.solution.orders@.len() >= 3 {
                        let rng2 = next_state(next_state(s1));
                        match two_opt_proposal(*input, pre.solution, s1) {
                            None => r is Settled && skipped(pre, post, rng2),
                            Some(pd) => if pd.1 <= 0 {
                                r is Settled && committed(pre, post, pd.0, pd.1, rng2)
                            } else {
                                r matches StepOutcome::NeedDecision { mv, delta, bits } && mv
                                    == pd.0 && delta as int == pd.1 && bits == (next_value(rng2)
                                    & bits_mask) && post.rng == next_state(rng2)
                            },
                        }
                    } else {
                        r is Settled && skipped(pre, post, s1)
                    }
                }))
            }),
    {
        let neigh_type = self.rng.gen_usize(0, 10);

        let proposal: Option<(Move, i64)> = if neigh_type < 2 {
            if input.m >= 1 && self.solution.orders.len() < MAX_TOUR_LEN {
                propose_insert(input, &self.solution, &mut self.rng)
            } else {
                None
            }
        } else if neigh_type < 4 {
            propose_remove_or_swap(input, &self.solution, &mut self.rng)
        } else if neigh_type < 5 {
            if input.m >= 1 && 2 * self.solution.orders.len() <= MAX_TOUR_LEN {
                Some(
                    propose_relocate(
                        input,
                        &self.solution,
                        self.current_score,
                        &mut self.rng,
                        spread,
                    ),
                )
            } else {
                None
            }
        } else {
            if self.solution.orders.len() >= 3 {
                propose_two_opt(input, &self.solution, &mut self.rng)
            } else {
                None
            }
        };

        match proposal {
            None => StepOutcome::Settled,
            Some((mv, delta)) => {
                if delta <= 0 {
                    self.commit(input, mv, delta);
                    StepOutcome::Settled
                } else {
                    let bits = self.rng.gen_unit_bits();
                    StepOutcome::NeedDecision { mv, delta, bits }
                }
            },
        }
    }

    /// Settles a pending worsening move with the caller's Metropolis
    /// decision: commit it on acceptance, drop it on rejection.  Either
    /// way the best snapshot is untouched, a worsening move never
    /// improving on it.
    pub fn resolve(&mut self, input: &Input, mv: Move, delta: i64, accept: bool)
        requires
            input_ok(*input),
            annealer_ok(*input, *old(self)),
            move_struct_ok(*input, old(self).solution, mv),
            moved_cost(*input, old(self).solution, mv) == old(self).current_score + delta,
            delta > 0,
        ensures
            annealer_ok(*input, *final(self)),
            final(self).best_score == old(self).best_score,
            same_state(final(self).best_solution, old(self).best_solution),
            final(self).rng == old(self).rng,
            accept ==> final(self).solution.orders@ == moved_orders(
                old(self).solution.orders@,
                mv,
            ) && final(self).solution.points@ == moved_points(old(self).solution.points@, mv)
                && final(self).current_score == old(self).current_score + delta,
            !accept ==> same_state(final(self).solution, old(self).solution),
            !accept ==> old(self).current_score == final(self).current_score,
    {
        if accept {
            self.commit(input, mv, delta);
        }
    }
}

} // verus!
