//! End-to-end and unit tests for the minesweeper engine.

use mines_rs::cell::solve_linear_constraints;
use mines_rs::client::Client;
use mines_rs::server::{GameError, GameSpec, GameState, NativeServer};
use mines_rs::{surr_indices, Coords, GameBatch};

fn spec(dims: Vec<usize>, mines: usize, seed: u32, autoclear: bool) -> GameSpec {
    GameSpec { dims, mines, seed, autoclear }
}

#[test]
fn coords_round_trip_2d() {
    let dims: Vec<usize> = vec![10, 10];
    let c = Coords::from_index(57, &dims);
    assert_eq!(c.0, vec![5, 7]);
    assert_eq!(c.to_index(&dims), 57);
    for i in 0..100 {
        let c = Coords::from_index(i, &dims);
        assert_eq!(c.to_index(&dims), i);
    }
}

#[test]
fn coords_round_trip_3d() {
    let dims: Vec<usize> = vec![3, 4, 5];
    for i in 0..60 {
        let c = Coords::from_index(i, &dims);
        assert_eq!(c.0.len(), 3);
        for (x, d) in c.0.iter().zip(dims.iter()) {
            assert!(x < d);
        }
        assert_eq!(c.to_index(&dims), i);
    }
}

#[test]
fn moore_neighborhood_interior() {
    let dims: Vec<usize> = vec![10, 10];
    let surr = surr_indices(&Coords(vec![5, 5]), &dims);
    assert_eq!(surr, vec![44, 45, 46, 54, 56, 64, 65, 66]);
}

#[test]
fn moore_neighborhood_corner() {
    let dims: Vec<usize> = vec![10, 10];
    let surr = surr_indices(&Coords(vec![0, 0]), &dims);
    assert_eq!(surr, vec![1, 10, 11]);
}

#[test]
fn single_cell_board_has_no_neighbors() {
    let dims: Vec<usize> = vec![1, 1];
    let surr = surr_indices(&Coords(vec![0, 0]), &dims);
    assert!(surr.is_empty());
}

#[test]
fn neighbor_symmetry_exhaustive_small_board() {
    let dims: Vec<usize> = vec![3, 4];
    let mut sets: Vec<Vec<usize>> = Vec::new();
    for i in 0..12 {
        sets.push(surr_indices(&Coords::from_index(i, &dims), &dims));
    }
    for a in 0..12usize {
        for b in 0..12usize {
            assert_eq!(sets[a].contains(&b), sets[b].contains(&a));
        }
    }
}

#[test]
fn grid_with_short_axis_is_rejected() {
    assert!(matches!(
        NativeServer::new(spec(vec![1, 1], 0, 1, true), false),
        Err(GameError::InvalidSpec)
    ));
    assert!(matches!(
        NativeServer::new(spec(vec![], 0, 1, true), false),
        Err(GameError::InvalidSpec)
    ));
    assert!(matches!(
        NativeServer::new(spec(vec![5, 1], 2, 1, true), false),
        Err(GameError::InvalidSpec)
    ));
}

#[test]
fn too_many_mines_is_rejected() {
    assert!(matches!(
        NativeServer::new(spec(vec![2, 2], 4, 1, true), false),
        Err(GameError::InvalidSpec)
    ));
    assert!(NativeServer::new(spec(vec![2, 2], 3, 1, true), false).is_ok());
}

#[test]
fn error_messages() {
    assert_eq!(GameError::InvalidSpec.message(), "invalid game params");
    assert_eq!(GameError::GameFinished.message(), "Game already finished");
}

#[test]
fn identical_specs_give_identical_boards() {
    let a = NativeServer::new(spec(vec![8, 8], 12, 4187776837, true), false).unwrap();
    let b = NativeServer::new(spec(vec![8, 8], 12, 4187776837, true), false).unwrap();
    assert_eq!(a.grid.len(), 64);
    assert_eq!(a.grid.len(), b.grid.len());
    let mut mines = 0;
    for (ca, cb) in a.grid.iter().zip(b.grid.iter()) {
        assert_eq!(ca.mine, cb.mine);
        assert_eq!(ca.surr_mine_count, cb.surr_mine_count);
        assert_eq!(ca.surr_indices, cb.surr_indices);
        if ca.mine {
            mines += 1;
        }
    }
    assert_eq!(mines, 12);
    assert_eq!(a.cells_rem(), 64 - 12);
    assert_eq!(a.game_state(), GameState::Ongoing);
}

#[test]
fn different_seeds_give_different_boards() {
    let a = NativeServer::new(spec(vec![8, 8], 12, 1, true), false).unwrap();
    let b = NativeServer::new(spec(vec![8, 8], 12, 2, true), false).unwrap();
    let layout = |s: &NativeServer| s.grid.iter().map(|c| c.mine).collect::<Vec<bool>>();
    assert_ne!(layout(&a), layout(&b));
}

#[test]
fn surrounding_counts_match_layout() {
    let s = NativeServer::new(spec(vec![5, 5], 6, 99, true), false).unwrap();
    let dims = vec![5, 5];
    for i in 0..25 {
        let surr = surr_indices(&Coords::from_index(i, &dims), &dims);
        let expect = surr.iter().filter(|&&j| s.grid[j].mine).count();
        assert_eq!(s.grid[i].surr_mine_count, expect);
    }
}

#[test]
fn turn_on_finished_game_fails() {
    let mut s = NativeServer::new(spec(vec![2, 2], 3, 7, false), false).unwrap();
    // clear everything: the single mine-free cell wins or a mine loses first
    let all: Vec<Coords> = (0..4).map(|i| Coords::from_index(i, &vec![2, 2])).collect();
    let r = s.turn(all, vec![], vec![]);
    assert!(r.is_ok());
    // a revealed mine loses the game even though the last safe cell was also
    // cleared this turn
    assert_eq!(s.game_state(), GameState::Lose);
    assert_eq!(s.cells_rem(), 0);
    let again = s.turn(vec![Coords(vec![0, 0])], vec![], vec![]);
    assert!(matches!(again, Err(GameError::GameFinished)));
}

#[test]
fn cells_remaining_is_monotone_and_zero_iff_win() {
    let mut s = NativeServer::new(spec(vec![4, 4], 3, 12345, true), false).unwrap();
    let dims = vec![4, 4];
    let mut prev = s.cells_rem();
    for i in 0..16 {
        if s.game_state() != GameState::Ongoing {
            break;
        }
        let r = s.turn(vec![Coords::from_index(i, &dims)], vec![], vec![]);
        assert!(r.is_ok());
        let now = s.cells_rem();
        assert!(now <= prev, "cells_rem must never grow");
        prev = now;
    }
    assert_ne!(s.game_state(), GameState::Ongoing);
    if s.game_state() == GameState::Win {
        assert_eq!(s.cells_rem(), 0);
    }
}

#[test]
fn flags_are_idempotent_and_reversible() {
    let mut s = NativeServer::new(spec(vec![3, 3], 2, 5, false), false).unwrap();
    let target = vec![Coords(vec![1, 1])];
    let r1 = s.turn(vec![], target.clone(), vec![]).unwrap();
    assert!(r1.is_empty());
    // flagging the same cell again changes nothing, unflagging restores it
    s.turn(vec![], target.clone(), vec![]).unwrap();
    s.turn(vec![], vec![], target.clone()).unwrap();
    s.turn(vec![], vec![], target).unwrap();
    assert_eq!(s.game_state(), GameState::Ongoing);
}

#[test]
fn pairwise_solver_forced_values() {
    // a collapsed shared partition forces all three counts
    assert_eq!(solve_linear_constraints((1, 2, 1), (1, 2)), Some((0, 1, 1)));
    // everything fits in the exclusive partitions: nothing is forced
    assert_eq!(solve_linear_constraints((2, 2, 2), (2, 2)), None);
    // no mines at all: everything is provably clear
    assert_eq!(solve_linear_constraints((2, 1, 2), (0, 0)), Some((0, 0, 0)));
    // saturated: every cell in both sets is a mine
    assert_eq!(solve_linear_constraints((1, 1, 1), (2, 2)), Some((1, 1, 1)));
}

#[test]
fn reference_playout_terminates_and_reproduces() {
    let run = || {
        let server =
            NativeServer::new(spec(vec![10, 10], 10, 4187776837, true), false).unwrap();
        let mut player = Client::new(server);
        let state = player.play().unwrap();
        (state, player.server().cells_rem())
    };
    let (s1, rem1) = run();
    let (s2, rem2) = run();
    assert_ne!(s1, GameState::Ongoing, "the playout must decide the game");
    assert_eq!(s1, s2, "identical games must play out identically");
    assert_eq!(rem1, rem2);
    if s1 == GameState::Win {
        assert_eq!(rem1, 0);
    }
}

#[test]
fn batch_plays_every_surviving_spec_count_times() {
    let run = || {
        let batch = GameBatch {
            count_per_spec: 100,
            dims_range: vec![vec![20]],
            mines_range: (10..=50).step_by(5).collect(),
            autoclear: true,
            metaseed: 133337,
        };
        batch.run().unwrap()
    };
    let results = run();
    // only mine counts strictly below the 20-cell volume survive: 10 and 15
    assert_eq!(results.len(), 2);
    let mut total = 0;
    for row in &results {
        assert_eq!(row.dims, vec![20]);
        assert_eq!(row.played, 100);
        assert!(row.wins <= row.played);
        total += row.played;
    }
    assert_eq!(total, 2 * 100);
    // the batch is reproducible from the metaseed alone
    let again = run();
    for (a, b) in results.iter().zip(again.iter()) {
        assert_eq!(a.mines, b.mines);
        assert_eq!(a.wins, b.wins);
        assert_eq!(a.played, b.played);
    }
}

#[test]
fn empty_axis_range_yields_no_specs() {
    let batch = GameBatch {
        count_per_spec: 5,
        dims_range: vec![vec![4], vec![]],
        mines_range: vec![1],
        autoclear: true,
        metaseed: 1,
    };
    assert!(batch.run().unwrap().is_empty());
}

#[test]
fn batch_rejects_surviving_spec_with_short_axis() {
    let batch = GameBatch {
        count_per_spec: 1,
        dims_range: vec![vec![1]],
        mines_range: vec![0],
        autoclear: true,
        metaseed: 1,
    };
    assert!(matches!(batch.run(), Err(GameError::InvalidSpec)));
}

#[test]
fn grid_repr_renders_fresh_boards() {
    let s1 = NativeServer::new(spec(vec![2], 1, 7, false), false).unwrap();
    assert_eq!(s1.grid_repr().unwrap(), "\u{25a1} \u{25a1}");
    let s2 = NativeServer::new(spec(vec![2, 2], 1, 7, false), false).unwrap();
    assert_eq!(s2.grid_repr().unwrap(), "\u{25a1} \u{25a1}\n\u{25a1} \u{25a1}");
    let s3 = NativeServer::new(spec(vec![2, 2, 2], 1, 7, false), false).unwrap();
    assert!(s3.grid_repr().is_err());
}

#[test]
fn grid_repr_shows_flags_and_clears() {
    let mut s = NativeServer::new(spec(vec![3, 3], 1, 42, false), false).unwrap();
    s.turn(vec![], vec![Coords(vec![0, 0])], vec![]).unwrap();
    let repr = s.grid_repr().unwrap();
    assert!(repr.contains('\u{2690}'));
    assert_eq!(repr.matches('\u{25a1}').count(), 8);
}
