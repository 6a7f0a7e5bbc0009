use minesweeper::game::Coord;
use minesweeper::game::Difficulty;
use minesweeper::game::GameState;
use minesweeper::game::Minesweeper;
use minesweeper::game::TileMines;
use minesweeper::game::TileState;

fn neighbours(game: &Minesweeper, c: Coord) -> Vec<Coord> {
    game.iter_neighbours(c)
}

fn count_open(game: &Minesweeper) -> usize {
    game.tiles.iter().filter(|t| t.state == TileState::Open).count()
}

fn count_mines(game: &Minesweeper) -> usize {
    game.tiles.iter().filter(|t| t.mines == TileMines::Mine).count()
}

#[test]
fn new_board_counters() {
    let game = Minesweeper::new(Difficulty::Easy);
    assert_eq!(game.dimensions, Coord { x: 9, y: 9 });
    assert_eq!(game.mines_left, 10);
    assert!(game.state == GameState::Playing);
    assert_eq!(game.tiles.len(), 81);
    for t in game.tiles.iter() {
        assert!(t.state == TileState::Closed);
        assert!(t.mines == TileMines::NoMine(0));
    }
    assert!(!game.stopwatch.is_running());
}

#[test]
fn medium_and_hard_presets() {
    let m = Minesweeper::new(Difficulty::Medium);
    assert_eq!(m.dimensions, Coord { x: 16, y: 16 });
    assert_eq!(m.mines_left, 40);
    let h = Minesweeper::new(Difficulty::Hard);
    assert_eq!(h.dimensions, Coord { x: 30, y: 16 });
    assert_eq!(h.mines_left, 100);
}

#[test]
fn flag_toggles_counter_by_one() {
    let mut game = Minesweeper::new(Difficulty::Easy);
    let c = Coord { x: 0, y: 0 };
    game.flag(c);
    assert!(game.get_tile(c).state == TileState::Flagged);
    assert_eq!(game.mines_left, 9);
    game.flag(c);
    assert!(game.get_tile(c).state == TileState::Closed);
    assert_eq!(game.mines_left, 10);
}

#[test]
fn first_open_is_safe_and_starts_clock() {
    let mut game = Minesweeper::new(Difficulty::Easy);
    let start = Coord { x: 4, y: 4 };
    game.open(start);
    assert!(game.get_tile(start).state == TileState::Open);
    assert!(game.get_tile(start).mines != TileMines::Mine);
    for n in neighbours(&game, start) {
        assert!(game.get_tile(n).mines != TileMines::Mine);
    }
    assert!(game.state == GameState::Playing);
    assert!(game.stopwatch.is_running());
    assert_eq!(count_mines(&game), 10);
    assert_eq!(game.mines_left, 10);
}

#[test]
fn opening_never_closes_tiles() {
    let mut game = Minesweeper::new(Difficulty::Easy);
    game.open(Coord { x: 4, y: 4 });
    let mut opened = count_open(&game);
    for x in 0..9u8 {
        for y in 0..9u8 {
            let c = Coord { x, y };
            if game.get_tile(c).state == TileState::Closed
                && game.get_tile(c).mines != TileMines::Mine
            {
                game.open(c);
                let now = count_open(&game);
                assert!(now >= opened);
                opened = now;
            }
        }
    }
}

#[test]
fn flood_fill_opens_region_next_to_zero_tiles() {
    let mut game = Minesweeper::new(Difficulty::Easy);
    let start = Coord { x: 4, y: 4 };
    game.open(start);
    // the first click has no adjacent mines, so its own count is zero and
    // the flood runs; every opened tile beyond the click borders an open
    // zero-count tile
    assert!(game.get_tile(start).mines == TileMines::NoMine(0));
    assert!(count_open(&game) > 1);
    for t in game.tiles.iter() {
        if t.state == TileState::Open && t.coord != start {
            let has_zero_open_neighbour = neighbours(&game, t.coord).into_iter().any(|n| {
                game.get_tile(n).state == TileState::Open
                    && game.get_tile(n).mines == TileMines::NoMine(0)
            });
            assert!(has_zero_open_neighbour);
        }
    }
}

#[test]
fn win_by_opening_every_safe_tile() {
    let mut game = Minesweeper::new(Difficulty::Easy);
    game.open(Coord { x: 4, y: 4 });
    // flag all ten mines, and nothing else
    for i in 0..game.tiles.len() {
        if game.tiles[i].mines == TileMines::Mine {
            let c = game.tiles[i].coord;
            game.flag(c);
        }
    }
    assert_eq!(game.mines_left, 0);
    // open every remaining safe tile
    for x in 0..9u8 {
        for y in 0..9u8 {
            let c = Coord { x, y };
            if game.get_tile(c).state == TileState::Closed
                && game.get_tile(c).mines != TileMines::Mine
            {
                game.open(c);
            }
        }
    }
    game.check_state();
    assert!(game.state == GameState::Won);
    assert_eq!(game.mines_left, 0);
    assert!(!game.stopwatch.is_running());
}

#[test]
fn opening_a_mine_loses() {
    let mut game = Minesweeper::new(Difficulty::Easy);
    game.open(Coord { x: 0, y: 0 });
    let mine = game
        .tiles
        .iter()
        .find(|t| t.mines == TileMines::Mine && t.state == TileState::Closed)
        .map(|t| t.coord)
        .unwrap();
    game.open(mine);
    assert!(game.state == GameState::Lost);
    game.check_state();
    assert!(game.state == GameState::Lost);
}

fn find_open_numbered(game: &Minesweeper) -> (Coord, u8) {
    for t in game.tiles.iter() {
        if t.state == TileState::Open {
            if let TileMines::NoMine(n) = t.mines {
                if n > 0 {
                    return (t.coord, n);
                }
            }
        }
    }
    panic!("no open numbered tile");
}

#[test]
fn chord_opens_all_unflagged_neighbours() {
    let mut game = Minesweeper::new(Difficulty::Easy);
    game.open(Coord { x: 4, y: 4 });
    let (c, n) = find_open_numbered(&game);
    // flag exactly the mines around the numbered tile
    let mut flagged = 0u8;
    for nb in neighbours(&game, c) {
        if game.get_tile(nb).mines == TileMines::Mine {
            game.flag(nb);
            flagged += 1;
        }
    }
    assert_eq!(flagged, n);
    let closed: Vec<Coord> = neighbours(&game, c)
        .into_iter()
        .filter(|&nb| game.get_tile(nb).state == TileState::Closed)
        .collect();
    game.open(c);
    for nb in closed {
        assert!(game.get_tile(nb).state == TileState::Open);
    }
}

#[test]
fn flag_chord_flags_then_unflags_neighbours() {
    let mut game = Minesweeper::new(Difficulty::Easy);
    game.open(Coord { x: 4, y: 4 });
    let (c, _) = find_open_numbered(&game);
    let closed: Vec<Coord> = neighbours(&game, c)
        .into_iter()
        .filter(|&nb| game.get_tile(nb).state == TileState::Closed)
        .collect();
    assert!(!closed.is_empty());
    let before = game.mines_left;
    game.flag(c);
    for &nb in &closed {
        assert!(game.get_tile(nb).state == TileState::Flagged);
    }
    assert_eq!(game.mines_left, before - closed.len() as i32);
    // now no closed unflagged neighbour is left, so a second call unflags
    let flagged_now: Vec<Coord> = neighbours(&game, c)
        .into_iter()
        .filter(|&nb| game.get_tile(nb).state == TileState::Flagged)
        .collect();
    let before2 = game.mines_left;
    game.flag(c);
    for &nb in &flagged_now {
        assert!(game.get_tile(nb).state == TileState::Closed);
    }
    assert_eq!(game.mines_left, before2 + flagged_now.len() as i32);
}

#[test]
fn open_on_flagged_tile_unflags_without_opening() {
    let mut game = Minesweeper::new(Difficulty::Easy);
    let c = Coord { x: 2, y: 2 };
    game.flag(c);
    assert_eq!(game.mines_left, 9);
    // the very first open landing on a flagged tile still generates the
    // mines and starts the clock, but only unflags the tile
    game.open(c);
    assert!(game.get_tile(c).state == TileState::Closed);
    assert_eq!(game.mines_left, 9);
    assert_eq!(count_mines(&game), 10);
    assert!(game.stopwatch.is_running());
}

#[test]
fn neighbour_listing_is_bounded_and_exact() {
    let game = Minesweeper::new(Difficulty::Easy);
    let corner = game.iter_neighbours(Coord { x: 0, y: 0 });
    assert_eq!(corner.len(), 3);
    let edge = game.iter_neighbours(Coord { x: 4, y: 0 });
    assert_eq!(edge.len(), 5);
    let middle = game.iter_neighbours(Coord { x: 4, y: 4 });
    assert_eq!(middle.len(), 8);
    assert!(!middle.contains(&Coord { x: 4, y: 4 }));
    assert!(middle.contains(&Coord { x: 3, y: 3 }));
    assert!(middle.contains(&Coord { x: 5, y: 5 }));
}

#[test]
fn hard_first_open_places_every_mine_with_correct_tags() {
    let mut game = Minesweeper::new(Difficulty::Hard);
    game.open(Coord { x: 15, y: 8 });
    assert_eq!(count_mines(&game), 100);
    assert_eq!(game.get_tile(Coord { x: 15, y: 8 }).mines, TileMines::NoMine(0));
    for t in game.tiles.iter() {
        if let TileMines::NoMine(n) = t.mines {
            let mines_around = game
                .iter_neighbours(t.coord)
                .into_iter()
                .filter(|&nb| game.get_tile(nb).mines == TileMines::Mine)
                .count();
            assert_eq!(mines_around, n as usize);
        }
    }
}

#[test]
fn neighbours_are_listed_row_by_row() {
    let game = Minesweeper::new(Difficulty::Easy);
    let middle = game.iter_neighbours(Coord { x: 4, y: 4 });
    let expected = vec![
        Coord { x: 3, y: 3 },
        Coord { x: 4, y: 3 },
        Coord { x: 5, y: 3 },
        Coord { x: 3, y: 4 },
        Coord { x: 5, y: 4 },
        Coord { x: 3, y: 5 },
        Coord { x: 4, y: 5 },
        Coord { x: 5, y: 5 },
    ];
    assert_eq!(middle, expected);
    assert_eq!(middle, game.iter_neighbours(Coord { x: 4, y: 4 }));
}

#[test]
fn counts_match_surrounding_mines() {
    let mut game = Minesweeper::new(Difficulty::Easy);
    game.open(Coord { x: 4, y: 4 });
    for t in game.tiles.iter() {
        if let TileMines::NoMine(n) = t.mines {
            let mines_around = game
                .iter_neighbours(t.coord)
                .into_iter()
                .filter(|&nb| game.get_tile(nb).mines == TileMines::Mine)
                .count();
            assert_eq!(mines_around, n as usize);
        }
    }
}
