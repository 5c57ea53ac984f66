//! The simulation harness's arithmetic: a requested game count is split as
//! evenly as possible across a fixed number of workers, the remainder going
//! one game each to the first workers.

use vstd::prelude::*;

verus! {

/// The number of games assigned to the workers before `index`.
pub open spec fn games_before(total: int, workers: int, index: int) -> int
    decreases index,
{
    if index <= 0 {
        0
    } else {
        games_before(total, workers, index - 1) + total / workers + if index - 1 < total % workers {
            1int
        } else {
            0int
        }
    }
}

/// How many games one worker simulates: an even share, plus one of the
/// remainder games for each of the first `total % workers` workers.
pub fn worker_game_count(total: usize, workers: usize, index: usize) -> (n: usize)
    requires
        workers >= 1,
        index < workers,
    ensures
        n == total / workers + if index < total % workers {
            1int
        } else {
            0int
        },
{
    let base = total / workers;
    let remainder = total % workers;
    if index + 1 <= remainder {
        proof {
            assert(total / workers + 1 <= total) by (nonlinear_arith)
                requires
                    workers >= 1,
                    total % workers >= 1,
                    total / workers == total as int / workers as int,
                    total % workers == total as int % workers as int,
            ;
        }
        base + 1
    } else {
        base
    }
}

/// Partition law: the workers' shares, as `worker_game_count` assigns
/// them, sum to exactly the requested total.
pub proof fn lemma_worker_partition(total: int, workers: int)
    requires
        total >= 0,
        workers >= 1,
    ensures
        games_before(total, workers, workers) == total,
{
    vstd::arithmetic::div_mod::lemma_fundamental_div_mod(total, workers);
    vstd::arithmetic::div_mod::lemma_mod_bound(total, workers);
    lemma_games_before_step(total, workers, workers);
}

/// After `index` workers the assigned games are `index` even shares plus
/// one remainder game for each remainder slot already passed.
proof fn lemma_games_before_step(total: int, workers: int, index: int)
    requires
        total >= 0,
        workers >= 1,
        0 <= index <= workers,
        total % workers < workers,
        total == workers * (total / workers) + total % workers,
    ensures
        games_before(total, workers, index) == index * (total / workers) + if index
            < total % workers {
            index
        } else {
            total % workers
        },
        index == workers ==> games_before(total, workers, index) == total,
    decreases index,
{
    if index == 0 {
        assert(0int * (total / workers) == 0) by (nonlinear_arith);
    } else {
        lemma_games_before_step(total, workers, index - 1);
        assert(index * (total / workers) == (index - 1) * (total / workers) + total / workers)
            by (nonlinear_arith);
    }
}

} // verus!
