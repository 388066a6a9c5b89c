use minesweeper::command::{is_blank, parse_command, parse_coordinate, split_words};
use minesweeper::{Command, GameBoard, GameState};

fn chars(word: &str) -> Vec<char> {
    word.chars().collect()
}

fn words(line: &str) -> Vec<String> {
    split_words(line).iter().map(|word| word.iter().collect()).collect()
}

#[test]
fn white_space_is_what_the_language_calls_so() {
    for code in 0u32..=0x10FFFF {
        if let Some(c) = char::from_u32(code) {
            assert_eq!(is_blank(c), c.is_whitespace(), "U+{:04X}", code);
        }
    }
}

#[test]
fn lines_split_into_words() {
    assert_eq!(words("r 1 2"), vec!["r", "1", "2"]);
    assert_eq!(words("  reveal\t10   3 \r\n"), vec!["reveal", "10", "3"]);
    assert_eq!(words(""), Vec::<String>::new());
    assert_eq!(words(" \t\n"), Vec::<String>::new());
    assert_eq!(words("one"), vec!["one"]);
    assert_eq!(words("a b c d e"), vec!["a", "b", "c", "d", "e"]);
    assert_eq!(words("f\u{3000}4\u{a0}5"), vec!["f", "4", "5"]);
    assert_eq!(words("héllo wörld"), vec!["héllo", "wörld"]);
}

#[test]
fn words_agree_with_split_whitespace() {
    let lines = [
        "r 1 2",
        "\tflag  3\u{2003}4\n",
        "x",
        "   ",
        "a  b",
        " lead",
        "trail ",
        "r1 2",
        "\u{85}\u{1680}q\u{2028}\u{2029}w\u{202f}e\u{205f}",
        "zero\u{200b}width joined",
    ];
    for line in lines {
        let expected: Vec<String> = line.split_whitespace().map(String::from).collect();
        assert_eq!(words(line), expected, "{:?}", line);
    }
}

#[test]
fn coordinates_are_decimal_numbers() {
    assert_eq!(parse_coordinate(&chars("0"), 10), 0);
    assert_eq!(parse_coordinate(&chars("7"), 10), 7);
    assert_eq!(parse_coordinate(&chars("42"), 10), 42);
    assert_eq!(parse_coordinate(&chars("007"), 10), 7);
    assert_eq!(parse_coordinate(&chars("+3"), 10), 3);
    assert_eq!(parse_coordinate(&chars("1234567890"), 10), 1234567890);
}

#[test]
fn what_is_no_number_names_the_limit() {
    for word in ["", "+", "-1", "-0", "abc", "12a", "a12", "1 2", "1.5", "++1", "1+", "٣", "0x10", " 5"] {
        assert_eq!(parse_coordinate(&chars(word), 10), 10, "{:?}", word);
        assert_eq!(parse_coordinate(&chars(word), 0), 0, "{:?}", word);
    }
}

#[test]
fn coordinates_agree_with_parse() {
    let largest = usize::MAX.to_string();
    let mut too_large = largest.clone();
    too_large.push('0');
    let mut one_more: Vec<char> = largest.chars().collect();
    let last = one_more.len() - 1;
    one_more[last] = char::from_digit(one_more[last].to_digit(10).unwrap() + 1, 10).unwrap_or('9');
    let one_more: String = one_more.into_iter().collect();
    let words = [
        "0",
        "9",
        "10",
        "+0",
        "+18",
        "000000000000000000000000000000001",
        largest.as_str(),
        too_large.as_str(),
        one_more.as_str(),
        "99999999999999999999999999999999999",
        "",
        "+",
        "-",
        "-5",
        "five",
        "5five",
    ];
    for word in words {
        let expected = word.parse::<usize>().unwrap_or(77);
        assert_eq!(parse_coordinate(&chars(word), 77), expected, "{:?}", word);
    }
    assert_eq!(parse_coordinate(&chars(&largest), 3), usize::MAX);
    assert_eq!(parse_coordinate(&chars(&too_large), 3), 3);
}

#[test]
fn commands_are_read_from_lines() {
    assert_eq!(parse_command("r 1 2", 10, 10), Command::Reveal { row: 1, col: 2 });
    assert_eq!(parse_command("f 3 4", 10, 10), Command::Flag { row: 3, col: 4 });
    assert_eq!(parse_command("reveal 0 0\n", 10, 10), Command::Reveal { row: 0, col: 0 });
    assert_eq!(parse_command("flag 9 9\n", 10, 10), Command::Flag { row: 9, col: 9 });
    assert_eq!(parse_command("rev 5 6", 10, 10), Command::Reveal { row: 5, col: 6 });
    assert_eq!(parse_command("fl 5 6", 10, 10), Command::Flag { row: 5, col: 6 });
    assert_eq!(parse_command("  r \t 1   2  ", 10, 10), Command::Reveal { row: 1, col: 2 });
    assert_eq!(parse_command("r 1 2 and more", 10, 10), Command::Reveal { row: 1, col: 2 });
    assert_eq!(parse_command("r 12 40", 10, 10), Command::Reveal { row: 12, col: 40 });
}

#[test]
fn short_lines_are_skipped() {
    for line in ["", "\n", "r", "r 1", "flag 2\n", "   ", "1 2"] {
        assert_eq!(parse_command(line, 10, 10), Command::Skip, "{:?}", line);
    }
}

#[test]
fn unknown_actions_are_named_so() {
    for line in ["x 1 2", "R 1 2", "F 1 2", "revealed 1 2", "flags 1 2", "rf 1 2", "1 2 3", "reveal! 1 2"] {
        assert_eq!(parse_command(line, 10, 10), Command::Unknown, "{:?}", line);
    }
}

#[test]
fn bad_numbers_point_off_the_grid() {
    assert_eq!(parse_command("r a b", 10, 12), Command::Reveal { row: 10, col: 12 });
    assert_eq!(parse_command("f 1 x", 10, 12), Command::Flag { row: 1, col: 12 });
    assert_eq!(parse_command("r -1 2", 10, 12), Command::Reveal { row: 10, col: 2 });
    assert_eq!(
        parse_command("r 99999999999999999999999 2", 3, 4),
        Command::Reveal { row: 3, col: 2 }
    );
}

#[test]
fn a_game_played_by_lines() {
    let mut board = GameBoard::with_mines(3, 4, &[(0, 0), (0, 1), (2, 3)]).expect("a valid layout");
    let fresh = board.clone();

    assert_eq!(board.take_turn("\n"), (Command::Skip, GameState::Playing));
    assert_eq!(board.take_turn("dig 1 1\n"), (Command::Unknown, GameState::Playing));
    assert_eq!(board.take_turn("r one two\n"), (Command::Reveal { row: 3, col: 4 }, GameState::Playing));
    assert_eq!(board.take_turn("f 7 7\n"), (Command::Flag { row: 7, col: 7 }, GameState::Playing));
    assert_eq!(board, fresh);

    assert_eq!(board.take_turn("r 2 0\n"), (Command::Reveal { row: 2, col: 0 }, GameState::Playing));
    assert_eq!(board.render(), ". . . . \n2 2 2 . \n0 0 1 . \n");
    assert_eq!(board.take_turn("f 0 0\n"), (Command::Flag { row: 0, col: 0 }, GameState::Playing));
    assert_eq!(board.render(), "F . . . \n2 2 2 . \n0 0 1 . \n");
    assert_eq!(board.take_turn("reveal 0 3\n"), (Command::Reveal { row: 0, col: 3 }, GameState::Won));
    assert_eq!(board.render(), "F . 1 0 \n2 2 2 1 \n0 0 1 . \n");

    let won = board.clone();
    assert_eq!(board.take_turn("r 0 1\n"), (Command::Reveal { row: 0, col: 1 }, GameState::Won));
    assert_eq!(board, won);
}

#[test]
fn a_game_lost_by_lines() {
    let mut board = GameBoard::with_mines(3, 4, &[(0, 0), (0, 1), (2, 3)]).expect("a valid layout");
    assert_eq!(board.take_turn("r 1 1"), (Command::Reveal { row: 1, col: 1 }, GameState::Playing));
    assert_eq!(board.take_turn("r 0 1"), (Command::Reveal { row: 0, col: 1 }, GameState::Lost));
    assert!(board.game_over());
    assert_eq!(board.render(), ". * . . \n. 2 . . \n. . . . \n");
    let lost = board.clone();
    assert_eq!(board.take_turn("f 2 2"), (Command::Flag { row: 2, col: 2 }, GameState::Lost));
    assert_eq!(board, lost);
}

#[test]
fn commands_are_carried_out() {
    let mut board = GameBoard::with_mines(2, 2, &[(1, 1)]).expect("a valid layout");
    assert_eq!(board.apply(Command::Skip), GameState::Playing);
    assert_eq!(board.apply(Command::Unknown), GameState::Playing);
    assert_eq!(board.apply(Command::Flag { row: 1, col: 1 }), GameState::Playing);
    assert!(board.cell(1, 1).unwrap().is_flagged);
    assert_eq!(board.apply(Command::Reveal { row: 0, col: 0 }), GameState::Playing);
    assert_eq!(board.apply(Command::Reveal { row: 0, col: 1 }), GameState::Playing);
    assert_eq!(board.apply(Command::Reveal { row: 1, col: 0 }), GameState::Won);
    assert_eq!(board.render(), "1 1 \n1 F \n");
}
