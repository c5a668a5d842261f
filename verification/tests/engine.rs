use contagion_grid::engine::Parasite;
use contagion_grid::grid::neighbors;

#[test]
fn test_dfs4() {
    let mut map = vec![vec![0, 3, 2], vec![0, 1, 1], vec![1, 0, 0]];
    let ticks_map = Parasite::bfs4(&mut map);

    assert_eq!(map, vec![vec![0, 3, 2], vec![0, 3, 3], vec![1, 0, 0]]);
    assert_eq!(
        ticks_map,
        vec![vec![-1, 0, -1], vec![-1, 1, 2], vec![-1, -1, -1]]
    )
}

#[test]
fn no_seeds_all_unreached() {
    let mut map = vec![vec![1, 0], vec![2, 1]];
    let ticks = Parasite::bfs4(&mut map);
    assert_eq!(map, vec![vec![1, 0], vec![2, 1]]);
    assert_eq!(ticks, vec![vec![-1, -1], vec![-1, -1]]);
}

#[test]
fn engine_is_deterministic() {
    let grid = vec![vec![3, 1, 1], vec![1, 2, 0], vec![1, 1, 3]];
    let mut a = grid.clone();
    let mut b = grid.clone();
    let ta = Parasite::bfs4(&mut a);
    let tb = Parasite::bfs4(&mut b);
    assert_eq!(a, b);
    assert_eq!(ta, tb);
}

#[test]
fn blocker_never_infected_or_ticked() {
    let mut map = vec![vec![3, 2], vec![1, 0]];
    let ticks = Parasite::bfs4(&mut map);
    assert_eq!(map[0][1], 2);
    assert_eq!(ticks[0][1], -1);
    assert_eq!(map, vec![vec![3, 2], vec![3, 0]]);
    assert_eq!(ticks, vec![vec![0, -1], vec![1, -1]]);
}

#[test]
fn converted_tick_exceeds_discoverer() {
    let mut map = vec![vec![3, 1, 1, 1]];
    let ticks = Parasite::bfs4(&mut map);
    // each conversion is discovered by its left neighbor
    assert_eq!(ticks[0][0], 0);
    for j in 1..4 {
        assert!(ticks[0][j] > ticks[0][j - 1]);
    }
}

#[test]
fn single_empty_cell_grid() {
    let mut map = vec![vec![0]];
    let ticks = Parasite::bfs4(&mut map);
    assert_eq!(ticks, vec![vec![-1]]);
}

#[test]
fn single_seed_cell_grid() {
    let mut map = vec![vec![3]];
    let ticks = Parasite::bfs4(&mut map);
    assert_eq!(ticks, vec![vec![0]]);
}

#[test]
fn neighbor_order_and_bounds() {
    assert_eq!(neighbors(3, 3, 1, 1), vec![(0, 1), (2, 1), (1, 0), (1, 2)]);
    assert_eq!(neighbors(3, 3, 0, 0), vec![(1, 0), (0, 1)]);
    assert_eq!(neighbors(3, 3, 2, 2), vec![(1, 2), (2, 1)]);
    assert_eq!(neighbors(1, 1, 0, 0), vec![]);
}
