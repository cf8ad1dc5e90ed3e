use minesweeper::board::Board;
use minesweeper::protocol::{parse_command, Command};
use minesweeper::session::{
    handle_line, help_text, ws_join, ws_leave, ws_step, SessionStatus, UserSet, WsReply,
};

fn layout(rows: &[&[bool]]) -> Vec<Vec<bool>> {
    rows.iter().map(|r| r.to_vec()).collect()
}

fn two_bomb_board() -> Board {
    Board::with_layout(
        3,
        3,
        layout(&[
            &[true, false, false],
            &[false, false, false],
            &[false, false, true],
        ]),
    )
}

#[test]
fn grammar_accepts_exactly_the_six_commands() {
    assert_eq!(parse_command("look"), Command::Look);
    assert_eq!(parse_command("help"), Command::Help);
    assert_eq!(parse_command("bye"), Command::Bye);
    assert_eq!(parse_command("dig 1 2"), Command::Dig(1, 2));
    assert_eq!(parse_command("flag 0 0"), Command::Flag(0, 0));
    assert_eq!(parse_command("deflag 7 3"), Command::Deflag(7, 3));
}

#[test]
fn grammar_takes_negative_coordinates() {
    assert_eq!(parse_command("dig -1 -2"), Command::Dig(-1, -2));
    assert_eq!(parse_command("flag -0 5"), Command::Flag(0, 5));
}

#[test]
fn grammar_rejects_everything_else() {
    assert_eq!(parse_command(""), Command::Unknown);
    assert_eq!(parse_command("poke 1 2"), Command::Unknown);
    assert_eq!(parse_command("dig"), Command::Unknown);
    assert_eq!(parse_command("dig 1"), Command::Unknown);
    assert_eq!(parse_command("dig 1 2 3"), Command::Unknown);
    assert_eq!(parse_command("dig  1 2"), Command::Unknown);
    assert_eq!(parse_command(" look"), Command::Unknown);
    assert_eq!(parse_command("look "), Command::Unknown);
    assert_eq!(parse_command("dig x y"), Command::Unknown);
    assert_eq!(parse_command("dig - 2"), Command::Unknown);
    assert_eq!(parse_command("dig 1.5 2"), Command::Unknown);
    assert_eq!(parse_command("LOOK"), Command::Unknown);
    assert_eq!(parse_command("byebye"), Command::Unknown);
}

#[test]
fn grammar_rejects_numbers_beyond_i32() {
    assert_eq!(parse_command("dig 2147483647 0"), Command::Dig(2147483647, 0));
    assert_eq!(parse_command("dig -2147483648 0"), Command::Dig(-2147483648, 0));
    assert_eq!(parse_command("dig 2147483648 0"), Command::Unknown);
    assert_eq!(parse_command("dig -2147483649 0"), Command::Unknown);
    assert_eq!(parse_command("dig 99999999999999999999 0"), Command::Unknown);
}

#[test]
fn look_answers_the_render_without_mutating() {
    let mut b = two_bomb_board();
    let before = b.render();
    let (out, status) = handle_line(&mut b, "look");
    assert_eq!(out, before);
    assert_eq!(status, SessionStatus::Continue);
    assert_eq!(b.render(), before);
}

#[test]
fn help_and_unknown_lines_answer_the_usage_text() {
    let mut b = two_bomb_board();
    let (out, status) = handle_line(&mut b, "help");
    assert_eq!(out, help_text());
    assert_eq!(status, SessionStatus::Continue);
    let (out2, status2) = handle_line(&mut b, "dig one two");
    assert_eq!(out2, help_text());
    assert_eq!(status2, SessionStatus::Continue);
}

#[test]
fn bye_ends_the_session_silently() {
    let mut b = two_bomb_board();
    let (out, status) = handle_line(&mut b, "bye");
    assert_eq!(out, "");
    assert_eq!(status, SessionStatus::Bye);
}

#[test]
fn commands_carry_the_column_first() {
    let mut b = two_bomb_board();
    // `dig 2 1` digs row 1, column 2.
    let (out, status) = handle_line(&mut b, "dig 2 1");
    assert_eq!(status, SessionStatus::Continue);
    assert_eq!(out, "- - -\n- - 1\n- - -");
}

#[test]
fn a_detonation_answers_boom_and_ends_the_session() {
    let mut b = two_bomb_board();
    let (out, status) = handle_line(&mut b, "dig 0 0");
    assert_eq!(out, "BOOM");
    assert_eq!(status, SessionStatus::Boom);
}

#[test]
fn ws_step_republishes_the_board_on_ordinary_moves() {
    let mut b = two_bomb_board();
    assert_eq!(ws_step(&mut b, "dig 1 1"), WsReply::Board);
    assert_eq!(b.render(), "- - -\n- 2 -\n- - -");
    assert_eq!(ws_step(&mut b, "flag 0 1"), WsReply::Board);
    assert_eq!(b.render(), "- - -\nF 2 -\n- - -");
    assert_eq!(ws_step(&mut b, "deflag 0 1"), WsReply::Board);
    assert_eq!(b.render(), "- - -\n- 2 -\n- - -");
    assert_eq!(ws_step(&mut b, "gibberish"), WsReply::Board);
}

#[test]
fn ws_step_reports_a_detonation_that_leaves_work_to_do() {
    // Defusing the left bomb floods up to the numbered cell; the safe
    // cell beyond the remaining bomb stays hidden, so the round goes on.
    let mut b = Board::with_layout(1, 5, layout(&[&[true, false, false, true, false]]));
    assert_eq!(ws_step(&mut b, "dig 0 0"), WsReply::Boom);
    assert_eq!(b.render(), "    1 - -");
}

#[test]
fn ws_step_wins_and_resets_once_the_board_is_complete() {
    let mut b = Board::with_layout(1, 2, layout(&[&[false, false]]));
    b.add_player();
    assert_eq!(ws_step(&mut b, "dig 0 0"), WsReply::Win);
    // The board was regenerated in place: same shape, same players.
    assert_eq!(b.render(), "- -");
    assert_eq!(b.get_player_count(), 1);
}

#[test]
fn duplicate_usernames_are_rejected_without_touching_the_board() {
    let mut users = UserSet::new();
    let mut b = two_bomb_board();
    let name = String::from("alice");
    assert!(ws_join(&mut users, &mut b, &name));
    assert_eq!(b.get_player_count(), 1);
    let again = String::from("alice");
    assert!(!ws_join(&mut users, &mut b, &again));
    assert_eq!(b.get_player_count(), 1);
    let other = String::from("bob");
    assert!(ws_join(&mut users, &mut b, &other));
    assert_eq!(b.get_player_count(), 2);
}

#[test]
fn a_released_username_can_be_taken_again() {
    let mut users = UserSet::new();
    let mut b = two_bomb_board();
    let name = String::from("carol");
    assert!(ws_join(&mut users, &mut b, &name));
    ws_leave(&mut users, &mut b, &name);
    assert_eq!(b.get_player_count(), 0);
    assert!(ws_join(&mut users, &mut b, &name));
    assert_eq!(b.get_player_count(), 1);
}

#[test]
fn welcome_message_names_count_and_dimensions() {
    assert_eq!(
        minesweeper::session::welcome_message(1, 10, 12),
        "Welcome to Minesweeper. Player 1 including you. Board: 10 columns by 12 rows. Type 'help' for help. \n> "
    );
    assert_eq!(
        minesweeper::session::welcome_message(205, 3, 7),
        "Welcome to Minesweeper. Player 205 including you. Board: 3 columns by 7 rows. Type 'help' for help. \n> "
    );
}

#[test]
fn help_text_lists_every_command() {
    let h = help_text();
    assert_eq!(h, "Commands: \nlook\ndig [X] [Y]\nflag [X] [Y]\ndeflag [X] [Y]\nbye\n");
}
