//! The traversal engine: multi-source expansion over a grid.
//!
//! Every infected cell seeds a frontier; coordinates are removed from the
//! frontier in last-in-first-out order, a tick counter is incremented once
//! per removal, and each removed coordinate's four neighbors are examined in
//! the order up, down, left, right. A susceptible neighbor is converted to
//! infected, receives the current tick, and joins the frontier; a blocker
//! neighbor joins the frontier unchanged; other neighbors are skipped.
//!
//! The whole algorithm is written down once more as a small-step spec-level
//! machine (`init_state`, `step`, `run_steps`); the executable engine is
//! proved to return exactly the machine's unique halting state.
use crate::grid::{grid_view, is_rect, tick_view};
use vstd::prelude::*;

verus! {

/// The largest tick value the engine's counter can reach.
pub const TICK_LIMIT: i32 = 0x7fff_ffff;

/// A snapshot of the traversal: the mutated grid, the tick map, the
/// frontier of coordinates still to process, and the tick counter.
#[verifier::ext_equal]
pub struct EngineState {
    pub grid: Seq<Seq<u32>>,
    pub ticks: Seq<Seq<i32>>,
    pub frontier: Seq<(usize, usize)>,
    pub count: int,
}

/// Whether `(i, j)` lies inside the grid.
pub open spec fn in_bounds(g: Seq<Seq<u32>>, i: int, j: int) -> bool {
    0 <= i < g.len() && 0 <= j < g[0].len()
}

/// The infected seed coordinates among the cells before row `i`, plus those
/// before column `j` of row `i`, in row-major order.
pub open spec fn seeds_upto(g: Seq<Seq<u32>>, i: int, j: int) -> Seq<(usize, usize)>
    decreases i, j,
{
    if i < 0 || j < 0 {
        Seq::empty()
    } else if j == 0 {
        if i == 0 {
            Seq::empty()
        } else {
            seeds_upto(g, i - 1, g[0].len() as int)
        }
    } else {
        seeds_upto(g, i, j - 1) + (if g[i][j - 1] == 3 {
            seq![(i as usize, (j - 1) as usize)]
        } else {
            Seq::empty()
        })
    }
}

/// All infected seed coordinates of the grid, in row-major order.
pub open spec fn seeds(g: Seq<Seq<u32>>) -> Seq<(usize, usize)> {
    seeds_upto(g, g.len() as int, 0)
}

/// The tick map after seeding the cells before `(i, j)` in row-major order:
/// `0` on seeded infected cells, `-1` everywhere else.
pub open spec fn ticks_seeded(g: Seq<Seq<u32>>, i: int, j: int) -> Seq<Seq<i32>> {
    Seq::new(
        g.len(),
        |r: int|
            Seq::new(
                g[0].len(),
                |c: int|
                    if (r < i || (r == i && c < j)) && g[r][c] == 3 {
                        0i32
                    } else {
                        -1i32
                    },
            ),
    )
}

/// The initial tick map: `0` on infected cells, `-1` everywhere else.
pub open spec fn init_ticks(g: Seq<Seq<u32>>) -> Seq<Seq<i32>> {
    ticks_seeded(g, g.len() as int, 0)
}

/// The machine's starting state for a grid.
pub open spec fn init_state(g: Seq<Seq<u32>>) -> EngineState {
    EngineState { grid: g, ticks: init_ticks(g), frontier: seeds(g), count: 0 }
}

/// One neighbor examination: out-of-grid coordinates are skipped; a
/// susceptible cell is converted, stamped with the current tick, and pushed
/// on the frontier; a blocker is pushed unchanged; others are skipped.
pub open spec fn visit(s: EngineState, i: int, j: int) -> EngineState {
    if !in_bounds(s.grid, i, j) {
        s
    } else if s.grid[i][j] == 1 {
        EngineState {
            grid: s.grid.update(i, s.grid[i].update(j, 3u32)),
            ticks: s.ticks.update(i, s.ticks[i].update(j, s.count as i32)),
            frontier: s.frontier.push((i as usize, j as usize)),
            count: s.count,
        }
    } else if s.grid[i][j] == 2 {
        EngineState {
            grid: s.grid,
            ticks: s.ticks,
            frontier: s.frontier.push((i as usize, j as usize)),
            count: s.count,
        }
    } else {
        s
    }
}

/// The machine has stopped: nothing is left on the frontier.
pub open spec fn halted(s: EngineState) -> bool {
    s.frontier.len() == 0
}

/// One removal: pop the most recently pushed coordinate, count the tick,
/// then examine its four neighbors in the order up, down, left, right.
pub open spec fn step(s: EngineState) -> EngineState {
    let pi = s.frontier.last().0 as int;
    let pj = s.frontier.last().1 as int;
    let s0 = EngineState {
        grid: s.grid,
        ticks: s.ticks,
        frontier: s.frontier.drop_last(),
        count: s.count + 1,
    };
    visit(visit(visit(visit(s0, pi - 1, pj), pi + 1, pj), pi, pj - 1), pi, pj + 1)
}

/// The machine after at most `n` removals; it stays put once halted.
pub open spec fn run_steps(s: EngineState, n: nat) -> EngineState
    decreases n,
{
    if n == 0 {
        s
    } else {
        let t = run_steps(s, (n - 1) as nat);
        if halted(t) {
            t
        } else {
            step(t)
        }
    }
}

/// The machine halts on this grid within `bound` removals.
pub open spec fn engine_halts_within(g: Seq<Seq<u32>>, bound: nat) -> bool {
    exists|n: nat| n <= bound && halted(run_steps(init_state(g), n))
}

/// The machine halts on this grid.
pub open spec fn engine_halts(g: Seq<Seq<u32>>) -> bool {
    exists|n: nat| halted(run_steps(init_state(g), n))
}

/// The machine's halting state on this grid — by `lemma_engine_deterministic`
/// a function of the grid alone whenever the machine halts.
pub open spec fn engine_final(g: Seq<Seq<u32>>) -> EngineState {
    run_steps(init_state(g), choose|n: nat| halted(run_steps(init_state(g), n)))
}

/// Shape facts every reachable state keeps: the grid and the tick map have
/// the starting dimensions, frontier coordinates are in bounds, and the
/// counter is non-negative.
pub open spec fn wf_state(g0: Seq<Seq<u32>>, s: EngineState) -> bool {
    &&& s.grid.len() == g0.len()
    &&& forall|i: int| 0 <= i < s.grid.len() ==> (#[trigger] s.grid[i]).len() == g0[0].len()
    &&& s.ticks.len() == g0.len()
    &&& forall|i: int| 0 <= i < s.ticks.len() ==> (#[trigger] s.ticks[i]).len() == g0[0].len()
    &&& forall|k: int|
        0 <= k < s.frontier.len() ==> (#[trigger] s.frontier[k]).0 < g0.len()
            && s.frontier[k].1 < g0[0].len()
    &&& 0 <= s.count
}

proof fn lemma_seeds_upto_wf(g: Seq<Seq<u32>>, i: int, j: int)
    requires
        g.len() <= usize::MAX,
        g[0].len() <= usize::MAX,
        i <= g.len(),
        j <= g[0].len(),
        j > 0 ==> i < g.len(),
    ensures
        forall|k: int|
            0 <= k < seeds_upto(g, i, j).len() ==> (#[trigger] seeds_upto(g, i, j)[k]).0 < g.len()
                && seeds_upto(g, i, j)[k].1 < g[0].len(),
    decreases i, j,
{
    if i < 0 || j < 0 {
        assert(seeds_upto(g, i, j) == Seq::<(usize, usize)>::empty());
    } else if j == 0 {
        if i == 0 {
            assert(seeds_upto(g, i, j) == Seq::<(usize, usize)>::empty());
        } else {
            lemma_seeds_upto_wf(g, i - 1, g[0].len() as int);
            assert(seeds_upto(g, i, j) == seeds_upto(g, i - 1, g[0].len() as int));
        }
    } else {
        lemma_seeds_upto_wf(g, i, j - 1);
        let a = seeds_upto(g, i, j - 1);
        let s = seeds_upto(g, i, j);
        if g[i][j - 1] == 3 {
            assert forall|k: int| 0 <= k < s.len() implies (#[trigger] s[k]).0 < g.len()
                && s[k].1 < g[0].len() by {
                if k < a.len() {
                    assert(s[k] == a[k]);
                } else {
                    assert(s[k] == (i as usize, (j - 1) as usize));
                }
            }
        } else {
            assert(s =~= a);
        }
    }
}

/// The starting state is well formed.
pub proof fn lemma_wf_init(g: Seq<Seq<u32>>)
    requires
        is_rect(g),
        g.len() <= usize::MAX,
        g[0].len() <= usize::MAX,
    ensures
        wf_state(g, init_state(g)),
{
    lemma_seeds_upto_wf(g, g.len() as int, 0);
}

proof fn lemma_wf_visit(g0: Seq<Seq<u32>>, s: EngineState, i: int, j: int)
    requires
        wf_state(g0, s),
        s.grid.len() == g0.len(),
    ensures
        wf_state(g0, visit(s, i, j)),
{
    if in_bounds(s.grid, i, j) {
        assert(s.grid[0].len() == g0[0].len());
    }
}

/// One step keeps a well-formed state well formed.
pub proof fn lemma_wf_step(g0: Seq<Seq<u32>>, s: EngineState)
    requires
        wf_state(g0, s),
        !halted(s),
    ensures
        wf_state(g0, step(s)),
{
    let pi = s.frontier.last().0 as int;
    let pj = s.frontier.last().1 as int;
    let s0 = EngineState {
        grid: s.grid,
        ticks: s.ticks,
        frontier: s.frontier.drop_last(),
        count: s.count + 1,
    };
    assert(wf_state(g0, s0));
    let s1 = visit(s0, pi - 1, pj);
    let s2 = visit(s1, pi + 1, pj);
    let s3 = visit(s2, pi, pj - 1);
    lemma_wf_visit(g0, s0, pi - 1, pj);
    lemma_wf_visit(g0, s1, pi + 1, pj);
    lemma_wf_visit(g0, s2, pi, pj - 1);
    lemma_wf_visit(g0, s3, pi, pj + 1);
}

/// Every reachable state is well formed.
pub proof fn lemma_wf_run(g0: Seq<Seq<u32>>, s: EngineState, n: nat)
    requires
        wf_state(g0, s),
    ensures
        wf_state(g0, run_steps(s, n)),
    decreases n,
{
    if n > 0 {
        lemma_wf_run(g0, s, (n - 1) as nat);
        let t = run_steps(s, (n - 1) as nat);
        if !halted(t) {
            lemma_wf_step(g0, t);
        }
    }
}

/// Running `a + b` steps is running `a` steps, then `b` more.
pub proof fn lemma_run_add(s: EngineState, a: nat, b: nat)
    ensures
        run_steps(s, a + b) == run_steps(run_steps(s, a), b),
    decreases b,
{
    if b == 0 {
        assert(a + b == a);
    } else {
        lemma_run_add(s, a, (b - 1) as nat);
        assert(a + b == (a + (b - 1) as nat) + 1);
    }
}

/// A halted machine stays where it is.
pub proof fn lemma_halted_stable(s: EngineState, n: nat)
    requires
        halted(s),
    ensures
        run_steps(s, n) == s,
    decreases n,
{
    if n > 0 {
        lemma_halted_stable(s, (n - 1) as nat);
    }
}

/// A machine still running at `k` steps halts, if at all, strictly later.
pub proof fn lemma_halt_order(s: EngineState, k: nat, n: nat)
    requires
        !halted(run_steps(s, k)),
        halted(run_steps(s, n)),
    ensures
        k < n,
{
    if k >= n {
        lemma_run_add(s, n, (k - n) as nat);
        lemma_halted_stable(run_steps(s, n), (k - n) as nat);
    }
}

/// Law: the engine is deterministic. Any two halting runs from the same
/// grid reach the same grid, tick map, and counter, so the output is a
/// function of the input grid alone.
pub proof fn lemma_engine_deterministic(g: Seq<Seq<u32>>, n1: nat, n2: nat)
    requires
        halted(run_steps(init_state(g), n1)),
        halted(run_steps(init_state(g), n2)),
    ensures
        run_steps(init_state(g), n1) == run_steps(init_state(g), n2),
{
    let s = init_state(g);
    if n1 <= n2 {
        lemma_run_add(s, n1, (n2 - n1) as nat);
        lemma_halted_stable(run_steps(s, n1), (n2 - n1) as nat);
    } else {
        lemma_run_add(s, n2, (n1 - n2) as nat);
        lemma_halted_stable(run_steps(s, n2), (n1 - n2) as nat);
    }
}

proof fn lemma_seeds_upto_empty(g: Seq<Seq<u32>>, i: int, j: int)
    requires
        i <= g.len(),
        j <= g[0].len(),
        j > 0 ==> i < g.len(),
        forall|r: int, c: int| 0 <= r < g.len() && 0 <= c < g[0].len() ==> (#[trigger] g[r][c]) != 3,
    ensures
        seeds_upto(g, i, j) == Seq::<(usize, usize)>::empty(),
    decreases i, j,
{
    if i < 0 || j < 0 {
    } else if j == 0 {
        if i == 0 {
        } else {
            lemma_seeds_upto_empty(g, i - 1, g[0].len() as int);
            assert(seeds_upto(g, i, j) == seeds_upto(g, i - 1, g[0].len() as int));
        }
    } else {
        lemma_seeds_upto_empty(g, i, j - 1);
        assert(g[i][j - 1] != 3);
        assert(seeds_upto(g, i, j) =~= seeds_upto(g, i, j - 1));
    }
}

/// Law: on a grid with no infected seed cell the machine halts at once,
/// leaving the grid as it was and every tick-map entry at `-1`.
pub proof fn lemma_no_seeds(g: Seq<Seq<u32>>)
    requires
        is_rect(g),
        g.len() <= usize::MAX,
        g[0].len() <= usize::MAX,
        forall|r: int, c: int| 0 <= r < g.len() && 0 <= c < g[0].len() ==> (#[trigger] g[r][c]) != 3,
    ensures
        engine_halts_within(g, 0),
        engine_final(g) == init_state(g),
        engine_final(g).grid == g,
        forall|r: int, c: int|
            0 <= r < g.len() && 0 <= c < g[0].len() ==> engine_final(g).ticks[r][c] == -1i32,
{
    lemma_seeds_upto_empty(g, g.len() as int, 0);
    assert(halted(init_state(g)));
    assert(run_steps(init_state(g), 0) == init_state(g));
    lemma_engine_final(g, 0);
}

/// Tick entries never exceed the counter.
pub open spec fn ticks_bounded(s: EngineState) -> bool {
    forall|i: int, j: int|
        0 <= i < s.ticks.len() && 0 <= j < s.ticks[i].len() ==> (#[trigger] s.ticks[i][j]) as int
            <= s.count
}

proof fn lemma_visit_cell(s: EngineState, vi: int, vj: int, i: int, j: int)
    requires
        0 <= i < s.grid.len(),
        0 <= j < s.grid[i].len(),
        s.ticks.len() == s.grid.len(),
        0 <= j < s.ticks[i].len(),
        in_bounds(s.grid, vi, vj) ==> s.grid[vi].len() == s.grid[0].len() && s.ticks[vi].len()
            == s.grid[0].len(),
    ensures
        visit(s, vi, vj).count == s.count,
        visit(s, vi, vj).grid.len() == s.grid.len(),
        visit(s, vi, vj).ticks.len() == s.ticks.len(),
        visit(s, vi, vj).grid[i].len() == s.grid[i].len(),
        visit(s, vi, vj).ticks[i].len() == s.ticks[i].len(),
        (i != vi || j != vj) ==> visit(s, vi, vj).grid[i][j] == s.grid[i][j] && visit(
            s,
            vi,
            vj,
        ).ticks[i][j] == s.ticks[i][j],
        (i == vi && j == vj && in_bounds(s.grid, vi, vj) && s.grid[i][j] == 1) ==> visit(
            s,
            vi,
            vj,
        ).grid[i][j] == 3 && visit(s, vi, vj).ticks[i][j] == s.count as i32,
        (i == vi && j == vj && !(in_bounds(s.grid, vi, vj) && s.grid[i][j] == 1)) ==> visit(
            s,
            vi,
            vj,
        ).grid[i][j] == s.grid[i][j] && visit(s, vi, vj).ticks[i][j] == s.ticks[i][j],
{
}

proof fn lemma_blockers_visit(g: Seq<Seq<u32>>, s: EngineState, vi: int, vj: int)
    requires
        wf_state(g, s),
        is_rect(g),
        forall|r: int, c: int|
            0 <= r < g.len() && 0 <= c < g[0].len() && (#[trigger] g[r][c]) == 2 ==> s.grid[r][c]
                == 2 && s.ticks[r][c] == -1i32,
    ensures
        forall|r: int, c: int|
            0 <= r < g.len() && 0 <= c < g[0].len() && (#[trigger] g[r][c]) == 2 ==> visit(
                s,
                vi,
                vj,
            ).grid[r][c] == 2 && visit(s, vi, vj).ticks[r][c] == -1i32,
{
    assert forall|r: int, c: int|
        0 <= r < g.len() && 0 <= c < g[0].len() && (#[trigger] g[r][c]) == 2 implies visit(
        s,
        vi,
        vj,
    ).grid[r][c] == 2 && visit(s, vi, vj).ticks[r][c] == -1i32 by {
        lemma_visit_cell(s, vi, vj, r, c);
        if r == vi && c == vj {
            assert(s.grid[r][c] == 2);
        }
    }
}

/// In every reachable state, a cell that starts as a blocker still holds a
/// blocker and its tick entry is still `-1`.
pub open spec fn blockers_kept(g: Seq<Seq<u32>>, s: EngineState) -> bool {
    forall|r: int, c: int|
        0 <= r < g.len() && 0 <= c < g[0].len() && (#[trigger] g[r][c]) == 2 ==> s.grid[r][c] == 2
            && s.ticks[r][c] == -1i32
}

proof fn lemma_blockers_step(g: Seq<Seq<u32>>, s: EngineState)
    requires
        wf_state(g, s),
        is_rect(g),
        !halted(s),
        blockers_kept(g, s),
    ensures
        blockers_kept(g, step(s)),
{
    let pi = s.frontier.last().0 as int;
    let pj = s.frontier.last().1 as int;
    let s0 = EngineState {
        grid: s.grid,
        ticks: s.ticks,
        frontier: s.frontier.drop_last(),
        count: s.count + 1,
    };
    assert(wf_state(g, s0));
    let s1 = visit(s0, pi - 1, pj);
    let s2 = visit(s1, pi + 1, pj);
    let s3 = visit(s2, pi, pj - 1);
    lemma_blockers_visit(g, s0, pi - 1, pj);
    lemma_wf_visit(g, s0, pi - 1, pj);
    lemma_blockers_visit(g, s1, pi + 1, pj);
    lemma_wf_visit(g, s1, pi + 1, pj);
    lemma_blockers_visit(g, s2, pi, pj - 1);
    lemma_wf_visit(g, s2, pi, pj - 1);
    lemma_blockers_visit(g, s3, pi, pj + 1);
}

proof fn lemma_blockers_run(g: Seq<Seq<u32>>, n: nat)
    requires
        is_rect(g),
        g.len() <= usize::MAX,
        g[0].len() <= usize::MAX,
    ensures
        blockers_kept(g, run_steps(init_state(g), n)),
    decreases n,
{
    if n == 0 {
        assert forall|r: int, c: int|
            0 <= r < g.len() && 0 <= c < g[0].len() && (#[trigger] g[r][c]) == 2 implies init_state(
            g,
        ).grid[r][c] == 2 && init_state(g).ticks[r][c] == -1i32 by {
            assert(init_ticks(g)[r][c] == -1i32);
        }
    } else {
        lemma_blockers_run(g, (n - 1) as nat);
        let t = run_steps(init_state(g), (n - 1) as nat);
        if !halted(t) {
            lemma_wf_init(g);
            lemma_wf_run(g, init_state(g), (n - 1) as nat);
            lemma_blockers_step(g, t);
        }
    }
}

/// Law: blocker cells never appear infected in the output grid and never
/// receive a tick value other than `-1`.
pub proof fn lemma_blockers_final(g: Seq<Seq<u32>>)
    requires
        is_rect(g),
        g.len() <= usize::MAX,
        g[0].len() <= usize::MAX,
        engine_halts(g),
    ensures
        blockers_kept(g, engine_final(g)),
{
    let n = choose|n: nat| halted(run_steps(init_state(g), n));
    lemma_blockers_run(g, n);
}

proof fn lemma_ticks_bounded_visit(g: Seq<Seq<u32>>, a: EngineState, vi: int, vj: int)
    requires
        wf_state(g, a),
        ticks_bounded(a),
        a.count <= i32::MAX,
    ensures
        ticks_bounded(visit(a, vi, vj)),
        visit(a, vi, vj).count == a.count,
{
    if in_bounds(a.grid, vi, vj) && a.grid[vi][vj] == 1 {
        let v = visit(a, vi, vj);
        assert(a.grid[0].len() == g[0].len());
        assert forall|r: int, c: int|
            0 <= r < v.ticks.len() && 0 <= c < v.ticks[r].len() implies (
        #[trigger] v.ticks[r][c]) as int <= v.count by {
            assert(a.ticks[vi].len() == g[0].len());
            if r == vi && c == vj {
                assert(v.ticks[r][c] == a.count as i32);
            } else {
                if r == vi {
                    assert(v.ticks[r] == a.ticks[vi].update(vj, a.count as i32));
                    assert(v.ticks[r][c] == a.ticks[r][c]);
                } else {
                    assert(v.ticks[r] == a.ticks[r]);
                }
            }
        }
    }
}

proof fn lemma_ticks_bounded_step(g: Seq<Seq<u32>>, s: EngineState)
    requires
        wf_state(g, s),
        !halted(s),
        ticks_bounded(s),
        s.count + 1 <= i32::MAX,
    ensures
        ticks_bounded(step(s)),
        step(s).count == s.count + 1,
{
    let pi = s.frontier.last().0 as int;
    let pj = s.frontier.last().1 as int;
    let s0 = EngineState {
        grid: s.grid,
        ticks: s.ticks,
        frontier: s.frontier.drop_last(),
        count: s.count + 1,
    };
    assert(wf_state(g, s0));
    assert(ticks_bounded(s0));
    let s1 = visit(s0, pi - 1, pj);
    let s2 = visit(s1, pi + 1, pj);
    let s3 = visit(s2, pi, pj - 1);
    lemma_ticks_bounded_visit(g, s0, pi - 1, pj);
    lemma_wf_visit(g, s0, pi - 1, pj);
    lemma_ticks_bounded_visit(g, s1, pi + 1, pj);
    lemma_wf_visit(g, s1, pi + 1, pj);
    lemma_ticks_bounded_visit(g, s2, pi, pj - 1);
    lemma_wf_visit(g, s2, pi, pj - 1);
    lemma_ticks_bounded_visit(g, s3, pi, pj + 1);
}

proof fn lemma_ticks_bounded_run(g: Seq<Seq<u32>>, n: nat)
    requires
        is_rect(g),
        g.len() <= usize::MAX,
        g[0].len() <= usize::MAX,
        n <= i32::MAX,
    ensures
        ticks_bounded(run_steps(init_state(g), n)),
        run_steps(init_state(g), n).count <= n,
        0 <= run_steps(init_state(g), n).count,
    decreases n,
{
    if n == 0 {
        assert forall|r: int, c: int|
            0 <= r < init_ticks(g).len() && 0 <= c < init_ticks(g)[r].len() implies (
        #[trigger] init_state(g).ticks[r][c]) as int <= 0 by {
            assert(init_ticks(g)[r][c] == 0i32 || init_ticks(g)[r][c] == -1i32);
        }
    } else {
        lemma_ticks_bounded_run(g, (n - 1) as nat);
        let t = run_steps(init_state(g), (n - 1) as nat);
        if !halted(t) {
            lemma_wf_init(g);
            lemma_wf_run(g, init_state(g), (n - 1) as nat);
            lemma_ticks_bounded_step(g, t);
        }
    }
}

/// Law: when a step converts a susceptible cell, the tick it receives is
/// strictly greater than the tick of the frontier cell being processed —
/// the cell that discovered it.
pub proof fn lemma_discovery_tick(g: Seq<Seq<u32>>, n: nat)
    requires
        is_rect(g),
        g.len() <= usize::MAX,
        g[0].len() <= usize::MAX,
        n < 0x7fff_ffff,
        !halted(run_steps(init_state(g), n)),
    ensures
        ({
            let s = run_steps(init_state(g), n);
            let p = s.frontier.last();
            forall|i: int, j: int|
                0 <= i < g.len() && 0 <= j < g[0].len() && (#[trigger] s.grid[i][j]) == 1 && step(
                    s,
                ).grid[i][j] == 3 ==> step(s).ticks[i][j] as int > s.ticks[p.0 as int][p.1 as int]
                    as int
        }),
{
    let s = run_steps(init_state(g), n);
    let p = s.frontier.last();
    lemma_wf_init(g);
    lemma_wf_run(g, init_state(g), n);
    lemma_ticks_bounded_run(g, n);
    assert(s.frontier[s.frontier.len() - 1] == p);
    let pi = p.0 as int;
    let pj = p.1 as int;
    let s0 = EngineState {
        grid: s.grid,
        ticks: s.ticks,
        frontier: s.frontier.drop_last(),
        count: s.count + 1,
    };
    assert(wf_state(g, s0));
    let s1 = visit(s0, pi - 1, pj);
    let s2 = visit(s1, pi + 1, pj);
    let s3 = visit(s2, pi, pj - 1);
    let s4 = visit(s3, pi, pj + 1);
    lemma_wf_visit(g, s0, pi - 1, pj);
    lemma_wf_visit(g, s1, pi + 1, pj);
    lemma_wf_visit(g, s2, pi, pj - 1);
    lemma_wf_visit(g, s3, pi, pj + 1);
    assert(s.ticks[pi][pj] as int <= s.count);
    assert forall|i: int, j: int|
        0 <= i < g.len() && 0 <= j < g[0].len() && (#[trigger] s.grid[i][j]) == 1 && step(
            s,
        ).grid[i][j] == 3 implies step(s).ticks[i][j] as int > s.ticks[pi][pj] as int by {
        lemma_visit_cell(s0, pi - 1, pj, i, j);
        lemma_visit_cell(s1, pi + 1, pj, i, j);
        lemma_visit_cell(s2, pi, pj - 1, i, j);
        lemma_visit_cell(s3, pi, pj + 1, i, j);
        assert(s4 == step(s));
        assert(s4.ticks[i][j] == (s.count + 1) as i32);
    }
}

/// The machine state made of executable values: the grid rows, the tick
/// rows, the frontier vector's content, and the counter.
pub open spec fn state_of(
    g: Seq<Vec<u32>>,
    t: Seq<Vec<i32>>,
    f: Seq<(usize, usize)>,
    c: int,
) -> EngineState {
    EngineState { grid: grid_view(g), ticks: tick_view(t), frontier: f, count: c }
}

/// A fresh tick map: `m` rows of `n` entries, all `-1`.
fn blank_ticks(m: usize, n: usize) -> (r: Vec<Vec<i32>>)
    ensures
        r@.len() == m,
        forall|i: int| 0 <= i < m ==> (#[trigger] r@[i])@.len() == n,
        forall|i: int, j: int| 0 <= i < m && 0 <= j < n ==> r@[i]@[j] == -1i32,
{
    let mut r: Vec<Vec<i32>> = Vec::new();
    let mut i: usize = 0;
    while i < m
        invariant
            i <= m,
            r@.len() == i,
            forall|t: int| 0 <= t < i ==> (#[trigger] r@[t])@.len() == n,
            forall|t: int, c: int| 0 <= t < i && 0 <= c < n ==> r@[t]@[c] == -1i32,
        decreases m - i,
    {
        let mut row: Vec<i32> = Vec::new();
        let mut j: usize = 0;
        while j < n
            invariant
                j <= n,
                row@.len() == j,
                forall|c: int| 0 <= c < j ==> row@[c] == -1i32,
            decreases n - j,
        {
            row.push(-1);
            j = j + 1;
        }
        r.push(row);
        i = i + 1;
    }
    r
}

proof fn lemma_state_dims(
    g0: Seq<Seq<u32>>,
    map_s: Seq<Vec<u32>>,
    tick_s: Seq<Vec<i32>>,
    f: Seq<(usize, usize)>,
    c: int,
    s: EngineState,
)
    requires
        state_of(map_s, tick_s, f, c) == s,
        wf_state(g0, s),
    ensures
        map_s.len() == g0.len(),
        tick_s.len() == g0.len(),
        forall|t: int| 0 <= t < g0.len() ==> (#[trigger] map_s[t])@.len() == g0[0].len(),
        forall|t: int| 0 <= t < g0.len() ==> (#[trigger] tick_s[t])@.len() == g0[0].len(),
{
    assert(grid_view(map_s).len() == map_s.len());
    assert(tick_view(tick_s).len() == tick_s.len());
    assert forall|t: int| 0 <= t < g0.len() implies (#[trigger] map_s[t])@.len() == g0[0].len() by {
        assert(s.grid[t] == map_s[t]@);
    }
    assert forall|t: int| 0 <= t < g0.len() implies (#[trigger] tick_s[t])@.len() == g0[0].len() by {
        assert(s.ticks[t] == tick_s[t]@);
    }
}

/// Examines one in-bounds neighbor exactly as `visit` describes.
fn touch(
    map: &mut Vec<Vec<u32>>,
    tick_map: &mut Vec<Vec<i32>>,
    list: &mut Vec<(usize, usize)>,
    ticks: i32,
    i: usize,
    j: usize,
)
    requires
        old(map)@.len() >= 1,
        i < old(map)@.len(),
        j < old(map)@[0]@.len(),
        j < old(map)@[i as int]@.len(),
        old(tick_map)@.len() == old(map)@.len(),
        j < old(tick_map)@[i as int]@.len(),
    ensures
        state_of(final(map)@, final(tick_map)@, final(list)@, ticks as int) == visit(
            state_of(old(map)@, old(tick_map)@, old(list)@, ticks as int),
            i as int,
            j as int,
        ),
{
    let ghost pre = state_of(map@, tick_map@, list@, ticks as int);
    proof {
        assert(pre.grid[i as int] == map@[i as int]@);
        assert(pre.grid[0] == map@[0]@);
        assert(in_bounds(pre.grid, i as int, j as int));
    }
    let v = map[i][j];
    proof {
        assert(v == pre.grid[i as int][j as int]);
    }
    if v == 1 {
        list.push((i, j));
        map[i][j] = 3;
        tick_map[i][j] = ticks;
        proof {
            let post = visit(pre, i as int, j as int);
            assert(grid_view(map@) =~~= post.grid);
            assert(tick_view(tick_map@) =~~= post.ticks);
            assert(state_of(map@, tick_map@, list@, ticks as int) =~~= post);
        }
    } else if v == 2 {
        list.push((i, j));
        proof {
            let post = visit(pre, i as int, j as int);
            assert(grid_view(map@) =~~= post.grid);
            assert(tick_view(tick_map@) =~~= post.ticks);
            assert(state_of(map@, tick_map@, list@, ticks as int) =~~= post);
        }
    } else {
        proof {
            assert(state_of(map@, tick_map@, list@, ticks as int) =~~= pre);
        }
    }
}

/// The traversal engine.
pub struct Parasite {}

impl Parasite {
    /// Runs the expansion over the grid, converting susceptible cells in
    /// place and returning the tick map: each entry records the tick at
    /// which its cell was converted (`0` for seeds, `-1` for cells never
    /// reached). The result is exactly the halting state of the spec-level
    /// machine, so it is a function of the input grid alone.
    ///
    /// Because blockers rejoin the frontier every time a neighbor is
    /// processed, a pair of adjacent reachable blockers keeps the frontier
    /// busy forever; the precondition admits only grids on which the
    /// machine halts before the tick counter would overflow.
    pub fn bfs4(map: &mut Vec<Vec<u32>>) -> (r: Vec<Vec<i32>>)
        requires
            is_rect(grid_view(old(map)@)),
            engine_halts_within(grid_view(old(map)@), TICK_LIMIT as nat),
        ensures
            grid_view(final(map)@) == engine_final(grid_view(old(map)@)).grid,
            tick_view(r@) == engine_final(grid_view(old(map)@)).ticks,
            halted(engine_final(grid_view(old(map)@))),
            wf_state(grid_view(old(map)@), engine_final(grid_view(old(map)@))),
    {
        let ghost g0 = grid_view(map@);
        let m = map.len();
        let n = map[0].len();
        proof {
            assert(g0[0] == map@[0]@);
            assert(forall|t: int| 0 <= t < m ==> g0[t] == (#[trigger] map@[t])@);
        }
        let mut tick_map = blank_ticks(m, n);
        let mut list: Vec<(usize, usize)> = Vec::new();
        proof {
            assert(tick_view(tick_map@) =~~= ticks_seeded(g0, 0, 0));
            assert(list@ =~= seeds_upto(g0, 0, 0));
        }
        let mut i: usize = 0;
        while i < m
            invariant
                i <= m,
                1 <= m,
                m == g0.len(),
                n == g0[0].len(),
                is_rect(g0),
                grid_view(map@) == g0,
                map@.len() == m,
                tick_map@.len() == m,
                forall|t: int| 0 <= t < m ==> (#[trigger] tick_map@[t])@.len() == n,
                list@ == seeds_upto(g0, i as int, 0),
                tick_view(tick_map@) == ticks_seeded(g0, i as int, 0),
            decreases m - i,
        {
            let mut j: usize = 0;
            while j < n
                invariant
                    i < m,
                    j <= n,
                    1 <= m,
                    m == g0.len(),
                    n == g0[0].len(),
                    is_rect(g0),
                    grid_view(map@) == g0,
                    map@.len() == m,
                    tick_map@.len() == m,
                    forall|t: int| 0 <= t < m ==> (#[trigger] tick_map@[t])@.len() == n,
                    list@ == seeds_upto(g0, i as int, j as int),
                    tick_view(tick_map@) == ticks_seeded(g0, i as int, j as int),
                decreases n - j,
            {
                proof {
                    assert(g0[i as int] == map@[i as int]@);
                    assert(g0[i as int].len() == n);
                }
                if map[i][j] == 3 {
                    list.push((i, j));
                    let ghost t_pre = tick_view(tick_map@);
                    tick_map[i][j] = 0;
                    proof {
                        assert(g0[i as int][j as int] == 3);
                        assert(list@ =~= seeds_upto(g0, i as int, j as int + 1));
                        let t_new = ticks_seeded(g0, i as int, j as int + 1);
                        assert forall|r: int| 0 <= r < m implies tick_view(tick_map@)[r] =~= t_new[r] by {
                            if r == i as int {
                                assert(tick_view(tick_map@)[r] == t_pre[r].update(j as int, 0i32));
                            } else {
                                assert(tick_view(tick_map@)[r] == t_pre[r]);
                            }
                        }
                        assert(tick_view(tick_map@) =~= t_new);
                    }
                } else {
                    proof {
                        assert(g0[i as int][j as int] != 3);
                        assert(list@ =~= seeds_upto(g0, i as int, j as int + 1));
                        assert(tick_view(tick_map@) =~~= ticks_seeded(g0, i as int, j as int + 1));
                    }
                }
                j = j + 1;
            }
            proof {
                assert(seeds_upto(g0, i as int, n as int) == seeds_upto(g0, i as int + 1, 0));
                assert(ticks_seeded(g0, i as int, n as int) =~~= ticks_seeded(g0, i as int + 1, 0));
            }
            i = i + 1;
        }
        let ghost init = init_state(g0);
        proof {
            assert(tick_view(tick_map@) =~~= init_ticks(g0));
            assert(state_of(map@, tick_map@, list@, 0) =~~= init);
            lemma_wf_init(g0);
        }
        let ghost nw = choose|w: nat| w <= TICK_LIMIT as nat && halted(run_steps(init, w));
        proof {
            assert(nw <= TICK_LIMIT as nat && halted(run_steps(init, nw)));
        }
        let mut ticks: i32 = 0;
        let ghost mut steps: nat = 0;
        while list.len() != 0
            invariant
                1 <= m,
                m == g0.len(),
                n == g0[0].len(),
                is_rect(g0),
                init == init_state(g0),
                nw <= TICK_LIMIT as nat,
                halted(run_steps(init, nw)),
                steps <= nw,
                ticks as int == steps,
                run_steps(init, steps) == state_of(map@, tick_map@, list@, ticks as int),
                wf_state(g0, run_steps(init, steps)),
                map@.len() == m,
                tick_map@.len() == m,
                forall|t: int| 0 <= t < m ==> (#[trigger] map@[t])@.len() == n,
                forall|t: int| 0 <= t < m ==> (#[trigger] tick_map@[t])@.len() == n,
            decreases nw - steps,
        {
            let ghost s_pre = run_steps(init, steps);
            proof {
                assert(s_pre.frontier == list@);
                assert(!halted(s_pre));
                lemma_halt_order(init, steps, nw);
            }
            let p = list.pop().unwrap();
            let pi = p.0;
            let pj = p.1;
            proof {
                assert(p == s_pre.frontier.last());
                assert(s_pre.frontier[s_pre.frontier.len() - 1] == p);
                assert(pi < m && pj < n);
            }
            ticks = ticks + 1;
            let ghost s0 = EngineState {
                grid: s_pre.grid,
                ticks: s_pre.ticks,
                frontier: s_pre.frontier.drop_last(),
                count: s_pre.count + 1,
            };
            proof {
                assert(state_of(map@, tick_map@, list@, ticks as int) =~~= s0);
                assert(wf_state(g0, s0));
            }
            let ghost s1 = visit(s0, pi as int - 1, pj as int);
            if pi > 0 {
                touch(map, &mut tick_map, &mut list, ticks, pi - 1, pj);
            }
            proof {
                assert(state_of(map@, tick_map@, list@, ticks as int) == s1);
                lemma_wf_visit(g0, s0, pi as int - 1, pj as int);
                lemma_state_dims(g0, map@, tick_map@, list@, ticks as int, s1);
            }
            let ghost s2 = visit(s1, pi as int + 1, pj as int);
            if pi + 1 < m {
                touch(map, &mut tick_map, &mut list, ticks, pi + 1, pj);
            }
            proof {
                assert(state_of(map@, tick_map@, list@, ticks as int) == s2);
                lemma_wf_visit(g0, s1, pi as int + 1, pj as int);
                lemma_state_dims(g0, map@, tick_map@, list@, ticks as int, s2);
            }
            let ghost s3 = visit(s2, pi as int, pj as int - 1);
            if pj > 0 {
                touch(map, &mut tick_map, &mut list, ticks, pi, pj - 1);
            }
            proof {
                assert(state_of(map@, tick_map@, list@, ticks as int) == s3);
                lemma_wf_visit(g0, s2, pi as int, pj as int - 1);
                lemma_state_dims(g0, map@, tick_map@, list@, ticks as int, s3);
            }
            let ghost s4 = visit(s3, pi as int, pj as int + 1);
            if pj + 1 < n {
                touch(map, &mut tick_map, &mut list, ticks, pi, pj + 1);
            }
            proof {
                assert(state_of(map@, tick_map@, list@, ticks as int) == s4);
                assert(s4 == step(s_pre));
                steps = steps + 1;
                assert(run_steps(init, steps) == step(s_pre));
                lemma_wf_step(g0, s_pre);
                assert(wf_state(g0, run_steps(init, steps)));
                assert forall|t: int| 0 <= t < m implies (#[trigger] map@[t])@.len() == n by {
                    assert(run_steps(init, steps).grid[t] == map@[t]@);
                }
                assert forall|t: int| 0 <= t < m implies (#[trigger] tick_map@[t])@.len() == n by {
                    assert(run_steps(init, steps).ticks[t] == tick_map@[t]@);
                }
            }
        }
        proof {
            assert(halted(run_steps(init, steps)));
            lemma_engine_final(g0, steps);
            lemma_wf_run(g0, init, steps);
        }
        tick_map
    }
}

/// Any halting run reaches exactly `engine_final`.
pub proof fn lemma_engine_final(g: Seq<Seq<u32>>, n: nat)
    requires
        halted(run_steps(init_state(g), n)),
    ensures
        engine_final(g) == run_steps(init_state(g), n),
        halted(engine_final(g)),
{
    assert(exists|m: nat| halted(run_steps(init_state(g), m)));
    let m = choose|m: nat| halted(run_steps(init_state(g), m));
    lemma_engine_deterministic(g, m, n);
}

} // verus!
