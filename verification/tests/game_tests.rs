use minesweeper::{Cell, Game, Point};

fn pt(x: i8, y: i8) -> Point {
    Point { x, y }
}

fn count_mines_on_board(g: &Game) -> usize {
    let mut n: usize = 0;
    for x in 0..g.grid_width {
        for y in 0..g.grid_height {
            if g.cell_at(&pt(x as i8, y as i8)).is_mined {
                n += 1;
            }
        }
    }
    n
}

fn all_cells_open(g: &Game) -> bool {
    for x in 0..g.grid_width {
        for y in 0..g.grid_height {
            if !g.cell_at(&pt(x as i8, y as i8)).is_open {
                return false;
            }
        }
    }
    true
}

fn manual_adjacent_mines(g: &Game, x: i8, y: i8) -> u8 {
    let mut n: u8 = 0;
    for dx in -1i8..=1 {
        for dy in -1i8..=1 {
            if dx == 0 && dy == 0 {
                continue;
            }
            let p = pt(x + dx, y + dy);
            if g.in_grid(&p) && g.cell_at(&p).is_mined {
                n += 1;
            }
        }
    }
    n
}

#[test]
fn cell_new_is_all_default() {
    let c = Cell::new();
    assert_eq!(c.connections, 0);
    assert!(!c.is_mined);
    assert!(!c.is_open);
    assert!(!c.is_flagged);
    assert!(!c.is_question);
}

#[test]
fn new_game_configuration() {
    let g = Game::new();
    assert_eq!(g.grid_width, 10);
    assert_eq!(g.grid_height, 10);
    assert_eq!(g.mine_percent, 15);
    assert_eq!(g.grid_square, 60);
    assert!(g.first_click);
    assert!(!g.game_over);
    assert!(!g.game_won);
    assert!(!all_cells_open(&g));
    assert_eq!(count_mines_on_board(&g), 0);
}

#[test]
fn in_grid_bounds_checking() {
    let g = Game::new();
    assert!(g.in_grid(&pt(0, 0)));
    assert!(g.in_grid(&pt(9, 9)));
    assert!(g.in_grid(&pt(5, 0)));
    assert!(!g.in_grid(&pt(-1, 0)));
    assert!(!g.in_grid(&pt(0, -1)));
    assert!(!g.in_grid(&pt(10, 0)));
    assert!(!g.in_grid(&pt(0, 10)));
    assert!(!g.in_grid(&pt(-1, -1)));
}

#[test]
fn generate_places_exact_mine_count_and_protects_start() {
    // 10 x 10 at 15% density: floor(100 * 0.15) = 15 mines, never at (0, 0).
    for _ in 0..20 {
        let mut g = Game::new();
        g.generate_grid(&pt(0, 0));
        assert_eq!(count_mines_on_board(&g), 15);
        let start = g.cell_at(&pt(0, 0));
        assert!(!start.is_mined);
        assert!(start.is_open);
        assert!(!g.first_click);
        assert!(!g.game_over);
    }
}

#[test]
fn generate_counts_match_recount() {
    // Adjacency counts equal an independent recount of mined neighbors.
    for _ in 0..10 {
        let mut g = Game::new();
        g.generate_grid(&pt(4, 4));
        for x in 0..10i8 {
            for y in 0..10i8 {
                let c = g.cell_at(&pt(x, y));
                assert_eq!(c.connections, manual_adjacent_mines(&g, x, y));
            }
        }
    }
}

#[test]
fn place_mine_updates_neighbor_counts() {
    let mut g = Game::new();
    g.place_mine(&pt(0, 0));
    g.place_mine(&pt(1, 1));
    assert_eq!(g.cell_at(&pt(0, 1)).connections, 2);
    assert_eq!(g.cell_at(&pt(1, 0)).connections, 2);
    assert_eq!(g.cell_at(&pt(0, 0)).connections, 1);
    assert_eq!(g.cell_at(&pt(1, 1)).connections, 1);
    assert_eq!(g.cell_at(&pt(2, 2)).connections, 1);
    assert_eq!(g.cell_at(&pt(2, 0)).connections, 1);
    assert_eq!(g.cell_at(&pt(3, 3)).connections, 0);
    assert_eq!(g.cell_at(&pt(5, 5)).connections, 0);
    assert!(g.cell_at(&pt(0, 0)).is_mined);
    assert!(g.cell_at(&pt(1, 1)).is_mined);
    assert!(!g.cell_at(&pt(0, 1)).is_mined);
    assert_eq!(count_mines_on_board(&g), 2);
}

#[test]
fn expose_blank_cell_opens_whole_mine_free_board() {
    // A zero-count cell at (5, 5) on a mine-free 10 x 10 board: exposing it
    // must open every one of the 100 cells.
    let mut g = Game::new();
    assert_eq!(g.cell_at(&pt(5, 5)).connections, 0);
    g.expose(&pt(5, 5));
    assert!(all_cells_open(&g));
    assert!(!g.game_over);
    // every safe cell is open and no mine exists, so the game is won
    assert!(g.game_won);
}

#[test]
fn expose_mine_loses_and_reveals_everything() {
    let mut g = Game::new();
    g.place_mine(&pt(3, 3));
    g.expose(&pt(3, 3));
    assert!(g.game_over);
    assert!(all_cells_open(&g));
    assert!(!g.game_won);
}

#[test]
fn expose_flagged_cell_is_noop() {
    let mut g = Game::new();
    g.place_mine(&pt(3, 3));
    g.rotate_marker(&pt(5, 5));
    assert!(g.cell_at(&pt(5, 5)).is_flagged);
    g.expose(&pt(5, 5));
    assert!(!g.cell_at(&pt(5, 5)).is_open);
    assert!(g.cell_at(&pt(5, 5)).is_flagged);
    assert!(!g.game_over);
    assert!(!all_cells_open(&g));
    for x in 0..10i8 {
        for y in 0..10i8 {
            assert!(!g.cell_at(&pt(x, y)).is_open);
        }
    }
}

#[test]
fn expose_questioned_cell_is_noop() {
    let mut g = Game::new();
    g.rotate_marker(&pt(2, 2));
    g.rotate_marker(&pt(2, 2));
    assert!(g.cell_at(&pt(2, 2)).is_question);
    g.expose(&pt(2, 2));
    assert!(!g.cell_at(&pt(2, 2)).is_open);
    assert!(g.cell_at(&pt(2, 2)).is_question);
    for x in 0..10i8 {
        for y in 0..10i8 {
            assert!(!g.cell_at(&pt(x, y)).is_open);
        }
    }
}

#[test]
fn expose_zero_region_stops_at_numbered_border() {
    // One isolated mine in the far corner: exposing the opposite corner
    // opens the whole region and its numbered border, but not the mine cell.
    let mut g = Game::new();
    g.place_mine(&pt(9, 9));
    g.expose(&pt(0, 0));
    for x in 0..10i8 {
        for y in 0..10i8 {
            let c = g.cell_at(&pt(x, y));
            if x == 9 && y == 9 {
                assert!(!c.is_open);
            } else {
                assert!(c.is_open);
            }
        }
    }
    // the numbered border around the mine is open but did not cascade a loss
    assert_eq!(g.cell_at(&pt(8, 8)).connections, 1);
    assert!(g.cell_at(&pt(8, 8)).is_open);
    assert!(!g.game_over);
    // the one mined cell is still hidden, so the game is won
    assert!(g.game_won);
}

#[test]
fn expose_numbered_cell_does_not_cascade() {
    let mut g = Game::new();
    g.place_mine(&pt(0, 0));
    g.expose(&pt(1, 1));
    assert!(g.cell_at(&pt(1, 1)).is_open);
    assert_eq!(g.cell_at(&pt(1, 1)).connections, 1);
    for x in 0..10i8 {
        for y in 0..10i8 {
            if x == 1 && y == 1 {
                continue;
            }
            assert!(!g.cell_at(&pt(x, y)).is_open);
        }
    }
    assert!(!g.game_over);
}

#[test]
fn expose_open_cascades_from_start() {
    let mut g = Game::new();
    g.expose_open(&pt(4, 4));
    assert!(all_cells_open(&g));
}

#[test]
fn rotate_marker_cycles_in_three_steps() {
    let mut g = Game::new();
    let p = pt(7, 7);
    g.rotate_marker(&p);
    assert!(g.cell_at(&p).is_flagged);
    assert!(!g.cell_at(&p).is_question);
    g.rotate_marker(&p);
    assert!(!g.cell_at(&p).is_flagged);
    assert!(g.cell_at(&p).is_question);
    g.rotate_marker(&p);
    assert!(!g.cell_at(&p).is_flagged);
    assert!(!g.cell_at(&p).is_question);
    // a fourth call lands in the same state as the first
    g.rotate_marker(&p);
    assert!(g.cell_at(&p).is_flagged);
    assert!(!g.cell_at(&p).is_question);
}

#[test]
fn rotate_marker_clears_stale_marker_on_open_cell() {
    let mut c = Cell::new();
    c.is_open = true;
    c.is_flagged = true;
    c.rotate_marker();
    assert!(!c.is_flagged);
    assert!(!c.is_question);
    assert!(c.is_open);
    // and on an open unmarked cell it does nothing at all
    c.rotate_marker();
    assert!(!c.is_flagged);
    assert!(!c.is_question);
    assert!(c.is_open);
}

#[test]
fn lose_game_reveals_board_and_sets_flag() {
    let mut g = Game::new();
    g.place_mine(&pt(2, 2));
    g.lose_game();
    assert!(g.game_over);
    assert!(!g.game_won);
    assert!(all_cells_open(&g));
}

#[test]
fn chord_unchords_marked_neighbor_and_reveals_safe_ones() {
    let mut g = Game::new();
    g.place_mine(&pt(0, 0));
    g.expose(&pt(1, 1));
    g.rotate_marker(&pt(0, 0));
    assert!(g.cell_at(&pt(0, 0)).is_flagged);
    g.expose_neighbors(&pt(1, 1));
    // the flagged mined neighbor is forced back to hidden, not revealed
    assert!(!g.cell_at(&pt(0, 0)).is_open);
    assert!(g.cell_at(&pt(0, 0)).is_flagged);
    assert!(!g.game_over);
    // every safe neighbor is revealed; the zero-count ones cascaded
    for x in 0..10i8 {
        for y in 0..10i8 {
            if x == 0 && y == 0 {
                continue;
            }
            assert!(g.cell_at(&pt(x, y)).is_open);
        }
    }
    assert!(g.game_won);
}

#[test]
fn chord_into_unmarked_mine_loses() {
    let mut g = Game::new();
    g.place_mine(&pt(0, 0));
    g.expose(&pt(1, 1));
    g.expose_neighbors(&pt(1, 1));
    assert!(g.game_over);
    assert!(all_cells_open(&g));
    assert!(!g.game_won);
}

#[test]
fn with_size_configures_and_generates_floor_count() {
    // floor(5 * 7 * 50 / 100) = 17
    let mut g = Game::with_size(5, 7, 50, 10);
    assert_eq!(g.grid_width, 5);
    assert_eq!(g.grid_height, 7);
    assert_eq!(g.mine_percent, 50);
    assert_eq!(g.grid_square, 10);
    g.generate_grid(&pt(2, 3));
    assert_eq!(count_mines_on_board(&g), 17);
    assert!(!g.cell_at(&pt(2, 3)).is_mined);
    assert!(g.cell_at(&pt(2, 3)).is_open);
}

#[test]
fn compute_won_tracks_safe_cells() {
    let mut g = Game::new();
    assert!(!g.compute_won());
    g.place_mine(&pt(9, 9));
    g.expose(&pt(0, 0));
    assert!(g.compute_won());
    assert!(g.game_won);
    let mut lost = Game::new();
    lost.place_mine(&pt(1, 1));
    lost.expose(&pt(1, 1));
    assert!(!lost.compute_won());
}

#[test]
fn generate_discards_previous_state() {
    let mut g = Game::new();
    g.rotate_marker(&pt(6, 6));
    g.place_mine(&pt(2, 2));
    g.generate_grid(&pt(0, 0));
    // generation rebuilt the grid from scratch: no markers survive
    for x in 0..10i8 {
        for y in 0..10i8 {
            let c = g.cell_at(&pt(x, y));
            assert!(!c.is_flagged);
            assert!(!c.is_question);
        }
    }
    assert_eq!(count_mines_on_board(&g), 15);
}

#[test]
fn loss_is_irreversible_for_the_board() {
    let mut g = Game::new();
    g.place_mine(&pt(4, 4));
    g.expose(&pt(4, 4));
    assert!(g.game_over);
    g.expose(&pt(0, 0));
    assert!(g.game_over);
    g.expose_neighbors(&pt(5, 5));
    assert!(g.game_over);
    assert!(all_cells_open(&g));
}
