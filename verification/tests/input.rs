use minesweeper::input::is_whitespace;
use minesweeper::input::parse_move;
use minesweeper::input::parse_number;
use minesweeper::input::split_words;
use minesweeper::InputError;

fn chars(text: &str) -> Vec<char> {
    text.chars().collect()
}

fn read(text: &str) -> Result<(usize, usize), InputError> {
    parse_move(&chars(text), 5, 5)
}

/// What the standard library makes of the same line.
fn read_with_std(text: &str, width: usize, height: usize) -> Result<(usize, usize), InputError> {
    let coords: Vec<Result<usize, _>> = text.trim().split_whitespace().map(|s| s.parse::<usize>()).collect();
    if coords.len() != 2 {
        return Err(InputError::Format);
    }
    let x = match coords[0] {
        Ok(value) if value < width => value,
        _ => return Err(InputError::Column),
    };
    let y = match coords[1] {
        Ok(value) if value < height => value,
        _ => return Err(InputError::Row),
    };
    Ok((x, y))
}

#[test]
fn two_numbers_are_a_move() {
    assert_eq!(read("0 4"), Ok((0, 4)));
    assert_eq!(read("3 2"), Ok((3, 2)));
    assert_eq!(read("4 0\n"), Ok((4, 0)));
}

#[test]
fn white_space_around_the_numbers_is_skipped() {
    assert_eq!(read("  3   2 \n"), Ok((3, 2)));
    assert_eq!(read("\t1\t2\r\n"), Ok((1, 2)));
    assert_eq!(read("1\u{00A0}2"), Ok((1, 2)));
    assert_eq!(read("\u{3000}1\u{2003}\u{2028}2\u{0085}"), Ok((1, 2)));
}

#[test]
fn plus_sign_and_leading_zeros_are_accepted() {
    assert_eq!(read("+1 +2"), Ok((1, 2)));
    assert_eq!(read("01 002"), Ok((1, 2)));
    assert_eq!(read("+00 0"), Ok((0, 0)));
}

#[test]
fn other_than_two_words_is_a_format_error() {
    assert_eq!(read(""), Err(InputError::Format));
    assert_eq!(read("   \n"), Err(InputError::Format));
    assert_eq!(read("1"), Err(InputError::Format));
    assert_eq!(read("1 2 3"), Err(InputError::Format));
    assert_eq!(read("a b c"), Err(InputError::Format));
    assert_eq!(read("12"), Err(InputError::Format));
}

#[test]
fn bad_first_word_is_a_column_error() {
    assert_eq!(read("a 1"), Err(InputError::Column));
    assert_eq!(read("5 1"), Err(InputError::Column));
    assert_eq!(read("-1 2"), Err(InputError::Column));
    assert_eq!(read("1.5 2"), Err(InputError::Column));
    assert_eq!(read("+ 1"), Err(InputError::Column));
    assert_eq!(read("1_0 1"), Err(InputError::Column));
    assert_eq!(read("99999999999999999999999 1"), Err(InputError::Column));
    assert_eq!(read("x y"), Err(InputError::Column));
    assert_eq!(read("7 9"), Err(InputError::Column));
}

#[test]
fn bad_second_word_is_a_row_error() {
    assert_eq!(read("1 b"), Err(InputError::Row));
    assert_eq!(read("1 5"), Err(InputError::Row));
    assert_eq!(read("1 -0"), Err(InputError::Row));
    assert_eq!(read("1 2x"), Err(InputError::Row));
    assert_eq!(read("0 18446744073709551616"), Err(InputError::Row));
}

#[test]
fn limits_come_from_the_grid() {
    assert_eq!(parse_move(&chars("7 9"), 8, 10), Ok((7, 9)));
    assert_eq!(parse_move(&chars("7 9"), 7, 10), Err(InputError::Column));
    assert_eq!(parse_move(&chars("7 9"), 8, 9), Err(InputError::Row));
    assert_eq!(parse_move(&chars("0 0"), 0, 0), Err(InputError::Column));
}

#[test]
fn numbers_up_to_the_largest_are_read() {
    let largest = usize::MAX.to_string();
    assert_eq!(parse_number(&chars(&largest)), Some(usize::MAX));
    assert_eq!(parse_number(&chars("0")), Some(0));
    assert_eq!(parse_number(&chars("+42")), Some(42));
    assert_eq!(parse_number(&chars("000123")), Some(123));
    let beyond = format!("{}0", largest);
    assert_eq!(parse_number(&chars(&beyond)), None);
    let next = (usize::MAX as u128 + 1).to_string();
    assert_eq!(parse_number(&chars(&next)), None);
}

#[test]
fn what_is_no_number_is_refused() {
    for word in ["", "+", "-", "-5", "++5", "5+", "1 2", " 1", "1e3", "0x10", "٣", "１"] {
        assert_eq!(parse_number(&chars(word)), None);
    }
}

#[test]
fn numbers_agree_with_the_standard_library() {
    let words = [
        "0", "7", "+7", "-7", "007", "", "+", "12a", "a12", "4294967295", "4294967296",
        "18446744073709551615", "18446744073709551616", "99999999999999999999", "1_000", "٣",
    ];
    for word in words {
        assert_eq!(parse_number(&chars(word)), word.parse::<usize>().ok());
    }
}

#[test]
fn words_are_the_runs_between_white_space() {
    let found = split_words(&chars("  ab  c\td \n"));
    let found: Vec<String> = found.iter().map(|word| word.iter().collect()).collect();
    assert_eq!(found, vec!["ab", "c", "d"]);
    assert!(split_words(&chars("")).is_empty());
    assert!(split_words(&chars(" \t\n")).is_empty());
    assert_eq!(split_words(&chars("x")), vec![vec!['x']]);
}

#[test]
fn words_agree_with_the_standard_library() {
    let lines = [
        "", " ", "a", " a", "a ", "a b", "a  b", "  a\tb\nc  ", "1\u{00A0}2", "\u{2003}x\u{3000}",
        "no-space", "tab\tseparated\twords", "\r\n", "ends with space ", "1 2 3 4 5",
    ];
    for line in lines {
        let found: Vec<String> =
            split_words(&chars(line)).iter().map(|word| word.iter().collect()).collect();
        let expected: Vec<String> = line.split_whitespace().map(|word| word.to_string()).collect();
        assert_eq!(found, expected);
    }
}

#[test]
fn white_space_is_what_the_standard_library_calls_so() {
    for code in 0..=0x10FFFFu32 {
        if let Some(c) = char::from_u32(code) {
            assert_eq!(is_whitespace(c), c.is_whitespace());
        }
    }
}

#[test]
fn moves_agree_with_the_standard_library() {
    let lines = [
        "0 0", "4 4", "5 5", "1 2", " 1 2 ", "1  2", "1\t2", "1 2 3", "1", "", "a 1", "1 a", "a b",
        "-1 1", "1 -1", "+1 +1", "01 01", "1.0 1", "1,2", "3 99999999999999999999999", "2 4\n",
        "4 5", "5 4", "\u{00A0}3\u{00A0}3\u{00A0}",
    ];
    for line in lines {
        assert_eq!(parse_move(&chars(line), 5, 5), read_with_std(line, 5, 5));
        assert_eq!(parse_move(&chars(line), 3, 9), read_with_std(line, 3, 9));
    }
}
