use minesweeper::config::{parse_custom, ConfigError};
use minesweeper::minefield::MineField;
use minesweeper::render::{paint_for_count, Paint};

fn mined_field(width: usize, height: usize, mines: &[(usize, usize)]) -> MineField {
    let mut field = MineField::empty(width, height);
    let picks: Vec<usize> = mines.iter().map(|(row, column)| row * width + column).collect();
    field.populate_picked(&picks).unwrap();
    field
}

#[test]
fn hidden_tile_is_a_hash() {
    let field = mined_field(2, 1, &[(0, 0)]);
    assert_eq!(field.char_for_tile(0, 0), Ok(String::from("#")));
    assert_eq!(field.char_for_tile(0, 1), Ok(String::from("#")));
}

#[test]
fn flag_is_a_magenta_tilde() {
    let mut field = mined_field(2, 1, &[(0, 0)]);
    field.toggle_flag(0, 0).unwrap();
    assert_eq!(field.char_for_tile(0, 0), Ok(String::from("\x1b[38;5;13m~\x1b[39m")));
}

#[test]
fn open_mine_is_a_cross() {
    let mut field = mined_field(2, 1, &[(0, 0)]);
    field.dig_tile(0, 0).unwrap();
    assert_eq!(field.char_for_tile(0, 0), Ok(String::from("X")));
}

#[test]
fn open_tile_far_from_mines_is_blank() {
    let mut field = mined_field(3, 1, &[(0, 0)]);
    field.dig_tile(0, 2).unwrap();
    assert_eq!(field.char_for_tile(0, 2), Ok(String::from(" ")));
}

#[test]
fn open_tile_shows_its_count_in_colour() {
    let around = [(0, 0), (0, 1), (0, 2), (1, 0), (1, 2), (2, 0), (2, 1), (2, 2)];
    let colours = ["12", "2", "9", "4", "1", "6", "7", "8"];
    for count in 1..=8 {
        let mut field = mined_field(3, 3, &around[..count]);
        field.dig_tile(1, 1).unwrap();
        let expected = format!("\x1b[38;5;{}m{}\x1b[39m", colours[count - 1], count);
        assert_eq!(field.char_for_tile(1, 1), Ok(expected));
    }
}

#[test]
fn counts_have_their_colours() {
    assert_eq!(paint_for_count(1), Paint::LightBlue);
    assert_eq!(paint_for_count(2), Paint::Green);
    assert_eq!(paint_for_count(3), Paint::LightRed);
    assert_eq!(paint_for_count(4), Paint::Blue);
    assert_eq!(paint_for_count(5), Paint::Red);
    assert_eq!(paint_for_count(6), Paint::Cyan);
    assert_eq!(paint_for_count(7), Paint::White);
    assert_eq!(paint_for_count(8), Paint::LightBlack);
}

#[test]
fn field_is_written_row_by_row() {
    let mut field = mined_field(3, 2, &[(0, 0)]);
    assert_eq!(field.to_string(), "# # # \r\n# # # ");
    field.toggle_flag(0, 0).unwrap();
    field.flood_empty_tiles(1, 2).unwrap();
    assert_eq!(
        field.to_string(),
        "\x1b[38;5;13m~\x1b[39m \x1b[38;5;12m1\x1b[39m   \r\n# \x1b[38;5;12m1\x1b[39m   "
    );
    field.game_over();
    assert_eq!(
        field.to_string(),
        "\x1b[38;5;13m~\x1b[39m \x1b[38;5;12m1\x1b[39m   \r\n\x1b[38;5;12m1\x1b[39m \x1b[38;5;12m1\x1b[39m   "
    );
}

#[test]
fn single_row_and_single_column_fields_are_written() {
    let row = MineField::empty(3, 1);
    assert_eq!(row.to_string(), "# # # ");
    let column = MineField::empty(1, 3);
    assert_eq!(column.to_string(), "# \r\n# \r\n# ");
    let mut mine = mined_field(1, 1, &[(0, 0)]);
    mine.dig_tile(0, 0).unwrap();
    assert_eq!(mine.to_string(), "X ");
}

#[test]
fn custom_game_text_is_read() {
    assert_eq!(parse_custom("20x10_30"), Ok((20, 10, 30)));
    assert_eq!(parse_custom("1x1_0"), Ok((1, 1, 0)));
    assert_eq!(parse_custom("007x08_009"), Ok((7, 8, 9)));
    assert_eq!(parse_custom("+5x+6_+7"), Ok((5, 6, 7)));
    assert_eq!(parse_custom("0x0_0"), Ok((0, 0, 0)));
}

#[test]
fn custom_game_text_takes_the_largest_number() {
    let largest = usize::MAX;
    let text = format!("{}x2_3", largest);
    assert_eq!(parse_custom(&text), Ok((largest, 2, 3)));
    let text = format!("1x{}_3", largest);
    assert_eq!(parse_custom(&text), Ok((1, largest, 3)));
}

#[test]
fn custom_game_text_of_the_wrong_form_is_refused() {
    assert_eq!(parse_custom(""), Err(ConfigError::Format));
    assert_eq!(parse_custom("20x10"), Err(ConfigError::Format));
    assert_eq!(parse_custom("20x10_30_1"), Err(ConfigError::Format));
    assert_eq!(parse_custom("2010_30"), Err(ConfigError::Format));
    assert_eq!(parse_custom("20x10x5_30"), Err(ConfigError::Format));
    assert_eq!(parse_custom("20_10x30"), Err(ConfigError::Mines));
}

#[test]
fn custom_game_text_with_bad_mines_is_refused() {
    assert_eq!(parse_custom("20x10_"), Err(ConfigError::Mines));
    assert_eq!(parse_custom("20x10_a"), Err(ConfigError::Mines));
    assert_eq!(parse_custom("20x10_-3"), Err(ConfigError::Mines));
    assert_eq!(parse_custom("20x10_+"), Err(ConfigError::Mines));
    assert_eq!(parse_custom("20x10_ 3"), Err(ConfigError::Mines));
    assert_eq!(parse_custom("20x10_3.5"), Err(ConfigError::Mines));
    assert_eq!(parse_custom("ax10_b"), Err(ConfigError::Mines));
    assert_eq!(parse_custom("2010_b"), Err(ConfigError::Mines));
    assert_eq!(
        parse_custom("2x2_99999999999999999999999999999999999999999"),
        Err(ConfigError::Mines)
    );
}

#[test]
fn custom_game_text_with_bad_width_is_refused() {
    assert_eq!(parse_custom("x10_3"), Err(ConfigError::Width));
    assert_eq!(parse_custom("ax10_3"), Err(ConfigError::Width));
    assert_eq!(parse_custom(" 20x10_3"), Err(ConfigError::Width));
    assert_eq!(parse_custom("2\u{662}x10_3"), Err(ConfigError::Width));
    assert_eq!(parse_custom("axb_3"), Err(ConfigError::Width));
    let too_large = format!("{}0x2_3", usize::MAX);
    assert_eq!(parse_custom(&too_large), Err(ConfigError::Width));
    let one_more = format!("{}x2_3", usize::MAX as u128 + 1);
    assert_eq!(parse_custom(&one_more), Err(ConfigError::Width));
}

#[test]
fn custom_game_text_with_bad_height_is_refused() {
    assert_eq!(parse_custom("20x_3"), Err(ConfigError::Height));
    assert_eq!(parse_custom("20xb_3"), Err(ConfigError::Height));
    assert_eq!(parse_custom("20x1 0_3"), Err(ConfigError::Height));
    assert_eq!(parse_custom("20x++1_3"), Err(ConfigError::Height));
}
