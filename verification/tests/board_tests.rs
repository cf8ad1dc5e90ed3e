use minesweeper::board::Board;

fn layout(rows: &[&[bool]]) -> Vec<Vec<bool>> {
    rows.iter().map(|r| r.to_vec()).collect()
}

/// A 3x3 board with bombs only at (0,0) and (2,2).
fn two_bomb_board() -> Board {
    Board::with_layout(
        3,
        3,
        layout(&[
            &[true, false, false],
            &[false, false, false],
            &[false, false, true],
        ]),
    )
}

fn bomb_free_board(x: usize, y: usize) -> Board {
    Board::with_layout(x, y, vec![vec![false; y]; x])
}

#[test]
fn new_board_is_all_untouched_with_no_players() {
    let b = Board::new(4, 3);
    assert_eq!(b.get_size_x(), 4);
    assert_eq!(b.get_size_y(), 3);
    assert_eq!(b.get_player_count(), 0);
    assert_eq!(b.render(), "- - -\n- - -\n- - -\n- - -");
}

#[test]
fn player_count_tracks_joins_and_leaves() {
    let mut b = Board::new(2, 2);
    assert_eq!(b.add_player(), 1);
    assert_eq!(b.add_player(), 2);
    b.remove_player();
    assert_eq!(b.get_player_count(), 1);
}

#[test]
fn out_of_range_operations_are_no_ops() {
    let mut b = two_bomb_board();
    let before = b.render();
    assert_eq!(b.dig(-1, 0), before);
    assert_eq!(b.dig(0, -7), before);
    assert_eq!(b.dig(3, 0), before);
    assert_eq!(b.dig(0, 99), before);
    assert_eq!(b.flag(-1, -1), before);
    assert_eq!(b.flag(5, 5), before);
    assert_eq!(b.deflag(-2, 1), before);
    assert_eq!(b.deflag(1, 3), before);
    assert_eq!(b.render(), before);
}

#[test]
fn dig_is_idempotent() {
    let mut b = two_bomb_board();
    let first = b.dig(1, 1);
    let second = b.dig(1, 1);
    assert_eq!(first, second);
    assert_eq!(b.render(), first);
}

#[test]
fn flag_then_deflag_restores_the_render() {
    let mut b = two_bomb_board();
    let before = b.render();
    let flagged = b.flag(1, 2);
    assert_eq!(flagged, "- - -\n- - F\n- - -");
    b.deflag(1, 2);
    assert_eq!(b.render(), before);
}

#[test]
fn deflag_leaves_untouched_and_revealed_cells_alone() {
    let mut b = two_bomb_board();
    let before = b.render();
    assert_eq!(b.deflag(1, 1), before);
    b.dig(1, 1);
    let after_dig = b.render();
    assert_eq!(b.deflag(1, 1), after_dig);
}

#[test]
fn flag_blocks_digging() {
    let mut b = two_bomb_board();
    b.flag(1, 1);
    let flagged = b.render();
    assert_eq!(b.dig(1, 1), flagged);
}

#[test]
fn flags_survive_a_cascade() {
    let mut b = two_bomb_board();
    b.flag(0, 2);
    assert_eq!(b.dig(0, 0), "BOOM");
    // The flood fill sweeps around the flag but never removes it.
    assert_eq!(b.render(), "    F\n  1 1\n  1 -");
}

#[test]
fn digging_a_numbered_cell_reveals_only_it() {
    let mut b = two_bomb_board();
    let out = b.dig(1, 1);
    assert_eq!(out, "- - -\n- 2 -\n- - -");
}

#[test]
fn detonation_clears_the_bomb_and_lowers_revealed_neighbours() {
    let mut b = two_bomb_board();
    assert_eq!(b.dig(1, 1), "- - -\n- 2 -\n- - -");
    let boom = b.dig(0, 0);
    assert_eq!(boom, "BOOM");
    // The bomb at (0,0) is gone: (1,1) drops from 2 to 1 and the
    // flood fill from the defused corner sweeps the bomb-free region.
    assert_eq!(b.render(), "     \n  1 1\n  1 -");
}

#[test]
fn flood_fill_reveals_every_cell_of_a_bomb_free_board() {
    let mut b = bomb_free_board(3, 3);
    b.dig(0, 0);
    assert_eq!(b.render(), "     \n     \n     ");
    let mut wide = bomb_free_board(2, 4);
    wide.dig(1, 2);
    assert_eq!(wide.render(), "       \n       ");
}

#[test]
fn disjoint_digs_commute() {
    let mut ab = bomb_free_board(3, 3);
    ab.dig(0, 0);
    ab.dig(2, 2);
    let mut ba = bomb_free_board(3, 3);
    ba.dig(2, 2);
    ba.dig(0, 0);
    assert_eq!(ab.render(), ba.render());

    let mut ab2 = two_bomb_board();
    ab2.dig(1, 0);
    ab2.dig(0, 1);
    let mut ba2 = two_bomb_board();
    ba2.dig(0, 1);
    ba2.dig(1, 0);
    assert_eq!(ab2.render(), ba2.render());
}

#[test]
fn is_complete_exactly_when_every_bomb_free_cell_is_revealed() {
    let mut b = two_bomb_board();
    assert!(!b.is_complete());
    for x in 0..3 {
        for y in 0..3 {
            b.dig(x, y);
        }
    }
    // Both bombs were dug (and consumed), so every cell is revealed.
    assert!(b.is_complete());

    let mut c = Board::with_layout(
        2,
        2,
        layout(&[&[false, false], &[false, true]]),
    );
    c.dig(0, 0);
    assert!(!c.is_complete());
    c.dig(0, 1);
    c.dig(1, 0);
    assert_eq!(c.render(), "1 1\n1 -");
    // Every bomb-free cell is revealed; the bomb cell may stay hidden.
    assert!(c.is_complete());
}

#[test]
fn reset_keeps_shape_and_players_and_clears_cells() {
    let mut b = two_bomb_board();
    b.add_player();
    b.dig(1, 1);
    b.flag(0, 1);
    b.reset();
    assert_eq!(b.render(), "- - -\n- - -\n- - -");
    assert_eq!(b.get_player_count(), 1);
    assert_eq!(b.get_size_x(), 3);
    assert_eq!(b.get_size_y(), 3);
}

#[test]
fn one_by_one_boards_work() {
    let mut safe = bomb_free_board(1, 1);
    assert_eq!(safe.render(), "-");
    safe.dig(0, 0);
    assert_eq!(safe.render(), " ");
    assert!(safe.is_complete());

    let mut hot = Board::with_layout(1, 1, layout(&[&[true]]));
    assert_eq!(hot.dig(0, 0), "BOOM");
    assert_eq!(hot.render(), " ");
}

#[test]
fn zero_count_detonation_cascades_like_an_ordinary_dig() {
    // Bombs far apart on a 1x4 strip: defusing the left corner floods
    // until the numbered cell next to the remaining bomb.
    let mut b = Board::with_layout(1, 4, layout(&[&[true, false, false, true]]));
    assert_eq!(b.dig(0, 0), "BOOM");
    assert_eq!(b.render(), "    1 -");
}
