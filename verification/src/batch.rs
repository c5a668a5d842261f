//! The batch processor: an ordered list of independent queries, each run
//! against its own grid, answered in input order; the first validation
//! failure rejects the whole batch.
use crate::aggregate::{
    completion_metric, completion_metric_spec, lemma_grid_max_all_unreached, lookup_spec,
    lookup_tick,
};
use crate::engine::{
    engine_final, engine_halts_within, lemma_no_seeds, wf_state, Parasite, TICK_LIMIT,
};
use crate::grid::{
    grid_view, is_rect, tick_view, valid_grid, validate_grid, validate_grid_spec, ValidationError,
};
use vstd::prelude::*;

verus! {

/// One query: a room identifier, the initial grid, and the coordinate
/// strings of the cells of interest.
pub struct ParasitePostRequest {
    pub room: usize,
    pub grid: Vec<Vec<u32>>,
    pub indi: Vec<String>,
}

/// One response: the room identifier, each requested coordinate paired with
/// its tick value in request order, the completion metric, and two reserved
/// fields fixed at `1`.
pub struct ParasitePostResponse {
    pub room: usize,
    pub p1: Vec<(String, i32)>,
    pub p2: i32,
    pub p3: i32,
    pub p4: i32,
}

/// The character content of a list of coordinate strings.
pub open spec fn qview(qs: Seq<String>) -> Seq<Seq<char>> {
    Seq::new(qs.len(), |k: int| qs[k]@)
}

/// The character content of a list of answered coordinates.
pub open spec fn pairs_view(v: Seq<(String, i32)>) -> Seq<(Seq<char>, i32)> {
    Seq::new(v.len(), |k: int| (v[k].0@, v[k].1))
}

/// What answering a list of coordinates returns: every coordinate answered
/// in order, or the error of the first coordinate that fails.
pub open spec fn collect_spec(t: Seq<Seq<i32>>, qs: Seq<Seq<char>>) -> Result<
    Seq<(Seq<char>, i32)>,
    ValidationError,
>
    decreases qs.len(),
{
    if qs.len() == 0 {
        Ok(Seq::empty())
    } else {
        match collect_spec(t, qs.drop_last()) {
            Err(e) => Err(e),
            Ok(pre) => match lookup_spec(t, qs.last()) {
                Err(e) => Err(e),
                Ok(v) => Ok(pre.push((qs.last(), v))),
            },
        }
    }
}

proof fn lemma_collect_err(t: Seq<Seq<i32>>, qs: Seq<Seq<char>>, k: int, e: ValidationError)
    requires
        0 <= k < qs.len(),
        collect_spec(t, qs.subrange(0, k)) is Ok,
        lookup_spec(t, qs[k]) == Err::<i32, ValidationError>(e),
    ensures
        collect_spec(t, qs) == Err::<Seq<(Seq<char>, i32)>, ValidationError>(e),
    decreases qs.len(),
{
    if k == qs.len() - 1 {
        assert(qs.drop_last() =~= qs.subrange(0, k));
        assert(qs.last() == qs[k]);
    } else {
        assert(qs.drop_last().subrange(0, k) =~= qs.subrange(0, k));
        assert(qs.drop_last()[k] == qs[k]);
        lemma_collect_err(t, qs.drop_last(), k, e);
    }
}

/// Answers every requested coordinate against the tick map, in request
/// order, keyed by the original coordinate string; the first coordinate
/// that fails rejects the whole list with its error.
pub fn collect_ticks(ticks: &Vec<Vec<i32>>, queries: &Vec<String>) -> (r: Result<
    Vec<(String, i32)>,
    ValidationError,
>)
    ensures
        r matches Ok(v) ==> collect_spec(tick_view(ticks@), qview(queries@)) == Ok::<
            Seq<(Seq<char>, i32)>,
            ValidationError,
        >(pairs_view(v@)),
        r matches Err(e) ==> collect_spec(tick_view(ticks@), qview(queries@)) == Err::<
            Seq<(Seq<char>, i32)>,
            ValidationError,
        >(e),
{
    let ghost t = tick_view(ticks@);
    let ghost qs = qview(queries@);
    let mut out: Vec<(String, i32)> = Vec::new();
    let mut k: usize = 0;
    proof {
        assert(qs.subrange(0, 0) =~= Seq::<Seq<char>>::empty());
        assert(pairs_view(out@) =~= Seq::<(Seq<char>, i32)>::empty());
    }
    while k < queries.len()
        invariant
            k <= queries.len(),
            t == tick_view(ticks@),
            qs == qview(queries@),
            qs.len() == queries@.len(),
            collect_spec(t, qs.subrange(0, k as int)) == Ok::<
                Seq<(Seq<char>, i32)>,
                ValidationError,
            >(pairs_view(out@)),
        decreases queries.len() - k,
    {
        let q = &queries[k];
        proof {
            assert(qs[k as int] == queries@[k as int]@);
        }
        match lookup_tick(ticks, q.as_str()) {
            Ok(v) => {
                let ghost pre = pairs_view(out@);
                out.push((q.clone(), v));
                proof {
                    let p = qs.subrange(0, k as int + 1);
                    assert(p.drop_last() =~= qs.subrange(0, k as int));
                    assert(p.last() == qs[k as int]);
                    assert(pairs_view(out@) =~= pre.push((qs[k as int], v)));
                }
            },
            Err(e) => {
                proof {
                    lemma_collect_err(t, qs, k as int, e);
                }
                return Err(e);
            },
        }
        k = k + 1;
    }
    proof {
        assert(qs.subrange(0, queries@.len() as int) =~= qs);
    }
    Ok(out)
}

/// What one query returns: the answered coordinates and the completion
/// metric computed from the engine's halting state, or the first validation
/// error — of the grid first, then of the coordinates in order.
pub open spec fn query_spec(g: Seq<Seq<u32>>, qs: Seq<Seq<char>>) -> Result<
    (Seq<(Seq<char>, i32)>, int),
    ValidationError,
> {
    match validate_grid_spec(g) {
        Err(e) => Err(e),
        Ok(_) => {
            let fin = engine_final(g);
            match collect_spec(fin.ticks, qs) {
                Err(e) => Err(e),
                Ok(pairs) => Ok((pairs, completion_metric_spec(fin.ticks, g))),
            }
        },
    }
}

/// The response answers the request: same room, every coordinate answered
/// per `query_spec`, the completion metric, and the reserved fields at `1`.
pub open spec fn response_matches(req: ParasitePostRequest, resp: ParasitePostResponse) -> bool {
    match query_spec(grid_view(req.grid@), qview(req.indi@)) {
        Ok(p) => {
            &&& resp.room == req.room
            &&& pairs_view(resp.p1@) == p.0
            &&& resp.p2 as int == p.1
            &&& resp.p3 == 1
            &&& resp.p4 == 1
        },
        Err(_) => false,
    }
}

/// Law: on a grid with no infected seed cell, every tick-map entry of the
/// engine's output is `-1` and the completion metric is `-1`.
pub proof fn lemma_no_seeds_metric(g: Seq<Seq<u32>>)
    requires
        is_rect(g),
        g.len() <= usize::MAX,
        g[0].len() <= usize::MAX,
        forall|r: int, c: int| 0 <= r < g.len() && 0 <= c < g[0].len() ==> (#[trigger] g[r][c]) != 3,
    ensures
        engine_halts_within(g, 0),
        forall|r: int, c: int|
            0 <= r < g.len() && 0 <= c < g[0].len() ==> engine_final(g).ticks[r][c] == -1i32,
        completion_metric_spec(engine_final(g).ticks, g) == -1,
{
    lemma_no_seeds(g);
    let t = engine_final(g).ticks;
    if !crate::aggregate::any_unreached_susceptible(t, g) {
        assert forall|i: int, j: int|
            0 <= i < t.len() && 0 <= j < t[i].len() implies (#[trigger] t[i][j]) == -1i32 by {
            assert(t[i].len() == g[0].len());
            assert(t[i][j] == -1i32);
        }
        lemma_grid_max_all_unreached(t);
    }
}

/// Query `k` is the first of the batch to fail, and it fails with `e`.
pub open spec fn batch_err_at(reqs: Seq<ParasitePostRequest>, k: int, e: ValidationError) -> bool {
    &&& 0 <= k < reqs.len()
    &&& query_spec(grid_view(reqs[k].grid@), qview(reqs[k].indi@)) == Err::<
        (Seq<(Seq<char>, i32)>, int),
        ValidationError,
    >(e)
    &&& forall|k2: int|
        0 <= k2 < k ==> query_spec(
            grid_view((#[trigger] reqs[k2]).grid@),
            qview(reqs[k2].indi@),
        ) is Ok
}

fn clone_grid(g: &Vec<Vec<u32>>) -> (r: Vec<Vec<u32>>)
    ensures
        r@.len() == g@.len(),
        grid_view(r@) == grid_view(g@),
        forall|i: int| 0 <= i < g@.len() ==> (#[trigger] r@[i])@ == g@[i]@,
{
    let mut r: Vec<Vec<u32>> = Vec::new();
    let mut i: usize = 0;
    while i < g.len()
        invariant
            i <= g@.len(),
            r@.len() == i,
            forall|t: int| 0 <= t < i ==> (#[trigger] r@[t])@ == g@[t]@,
        decreases g@.len() - i,
    {
        let row = &g[i];
        let mut new_row: Vec<u32> = Vec::new();
        let mut j: usize = 0;
        while j < row.len()
            invariant
                j <= row@.len(),
                new_row@ == row@.subrange(0, j as int),
            decreases row@.len() - j,
        {
            new_row.push(row[j]);
            proof {
                assert(new_row@ =~= row@.subrange(0, j as int + 1));
            }
            j = j + 1;
        }
        proof {
            assert(new_row@ =~= row@);
        }
        r.push(new_row);
        i = i + 1;
    }
    proof {
        assert(grid_view(r@) =~~= grid_view(g@));
    }
    r
}

/// Processes one query: validates the grid, runs the engine over it in
/// place, answers each requested coordinate, and computes the completion
/// metric against a snapshot of the original cell kinds. The caller
/// promises that the engine halts on the grid within its tick budget.
pub fn process_query(req: ParasitePostRequest) -> (r: Result<
    ParasitePostResponse,
    ValidationError,
>)
    requires
        valid_grid(grid_view(req.grid@)) ==> engine_halts_within(
            grid_view(req.grid@),
            TICK_LIMIT as nat,
        ),
    ensures
        r matches Ok(resp) ==> query_spec(grid_view(req.grid@), qview(req.indi@)) is Ok
            && response_matches(req, resp),
        r matches Err(e) ==> query_spec(grid_view(req.grid@), qview(req.indi@)) == Err::<
            (Seq<(Seq<char>, i32)>, int),
            ValidationError,
        >(e),
{
    let ghost g0 = grid_view(req.grid@);
    let ghost qs = qview(req.indi@);
    let room = req.room;
    let mut grid = req.grid;
    let indi = req.indi;
    match validate_grid(&grid) {
        Err(e) => {
            return Err(e);
        },
        Ok(_) => {},
    }
    let snapshot = clone_grid(&grid);
    let ticks = Parasite::bfs4(&mut grid);
    let ghost fin = engine_final(g0);
    proof {
        assert(tick_view(ticks@) == fin.ticks);
        assert(wf_state(g0, fin));
        assert(ticks@.len() == fin.ticks.len());
        assert(snapshot@.len() == g0.len());
        assert forall|i: int| 0 <= i < snapshot@.len() implies (#[trigger] ticks@[i])@.len()
            == snapshot@[i]@.len() by {
            assert(fin.ticks[i] == ticks@[i]@);
            assert(g0[i] == snapshot@[i]@);
        }
    }
    let p2 = completion_metric(&ticks, &snapshot);
    proof {
        assert(grid_view(snapshot@) == g0);
    }
    match collect_ticks(&ticks, &indi) {
        Err(e) => Err(e),
        Ok(p1) => Ok(ParasitePostResponse { room, p1, p2, p3: 1, p4: 1 }),
    }
}

/// Processes an ordered batch of independent queries and answers them in
/// the same order; if any query fails validation the whole batch fails with
/// the first such error and no partial results. The caller promises that
/// the engine halts on every valid grid of the batch within its tick
/// budget.
pub fn process_batch(reqs: Vec<ParasitePostRequest>) -> (r: Result<
    Vec<ParasitePostResponse>,
    ValidationError,
>)
    requires
        forall|k: int|
            0 <= k < reqs@.len() ==> (valid_grid(grid_view((#[trigger] reqs@[k]).grid@))
                ==> engine_halts_within(grid_view(reqs@[k].grid@), TICK_LIMIT as nat)),
    ensures
        r matches Ok(v) ==> v@.len() == reqs@.len() && forall|k: int|
            0 <= k < reqs@.len() ==> response_matches(reqs@[k], #[trigger] v@[k]),
        r matches Err(e) ==> exists|k: int| #[trigger] batch_err_at(reqs@, k, e),
{
    let ghost all = reqs@;
    let mut rest = reqs;
    let n0 = rest.len();
    proof {
        assert(all.len() == n0);
    }
    let mut out: Vec<ParasitePostResponse> = Vec::new();
    let mut k: usize = 0;
    while rest.len() != 0
        invariant
            all == reqs@,
            all.len() <= usize::MAX,
            k + rest@.len() == all.len(),
            rest@ == all.subrange(k as int, all.len() as int),
            out@.len() == k,
            forall|k2: int| 0 <= k2 < k ==> response_matches(all[k2], #[trigger] out@[k2]),
            forall|k2: int|
                0 <= k2 < all.len() ==> (valid_grid(grid_view((#[trigger] all[k2]).grid@))
                    ==> engine_halts_within(grid_view(all[k2].grid@), TICK_LIMIT as nat)),
        decreases rest@.len(),
    {
        let req = rest.remove(0);
        proof {
            assert(all.subrange(k as int, all.len() as int)[0] == all[k as int]);
            assert(req == all[k as int]);
            assert(rest@ =~= all.subrange(k as int + 1, all.len() as int));
        }
        match process_query(req) {
            Ok(resp) => {
                out.push(resp);
            },
            Err(e) => {
                proof {
                    let kw = k as int;
                    assert(query_spec(grid_view(all[kw].grid@), qview(all[kw].indi@)) == Err::<
                        (Seq<(Seq<char>, i32)>, int),
                        ValidationError,
                    >(e));
                    assert forall|k2: int|
                        0 <= k2 < kw implies query_spec(
                        grid_view((#[trigger] all[k2]).grid@),
                        qview(all[k2].indi@),
                    ) is Ok by {
                        assert(response_matches(all[k2], out@[k2]));
                    }
                    assert(batch_err_at(all, kw, e));
                }
                return Err(e);
            },
        }
        k = k + 1;
    }
    proof {
        assert(out@.len() == all.len());
    }
    Ok(out)
}

} // verus!
