//! A small web service core: a contagion-spread engine over rectangular
//! integer grids, the aggregation of its results into per-query responses,
//! and the state of a simple turn-based board game.
use vstd::prelude::*;

pub mod aggregate;
pub mod batch;
pub mod engine;
pub mod grid;
pub mod tictactoe;

verus! {

/// Squares an integer, reporting overflow instead of panicking.
pub fn square(x: i64) -> (r: Option<i64>)
    ensures
        r == (if x * x > i64::MAX {
            None::<i64>
        } else {
            Some((x * x) as i64)
        }),
{
    proof {
        assert(x * x >= 0) by (nonlinear_arith);
    }
    x.checked_mul(x)
}

} // verus!
