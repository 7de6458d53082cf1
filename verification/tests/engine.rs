use minesweeper::minefield::{MineField, MineFieldState};
use minesweeper::tile::{Tile, TileState};

/// A field of hidden tiles with a mine at each of `mines`, given as
/// (row, column).
fn field_with_mines(width: usize, height: usize, mines: &[(usize, usize)]) -> MineField {
    let mut field = MineField::empty(width, height);
    let picks: Vec<usize> = mines.iter().map(|(row, column)| row * width + column).collect();
    field.populate_picked(&picks).unwrap();
    field
}

fn states(field: &MineField) -> Vec<TileState> {
    field.iter_tiles().iter().map(|tile| tile.state).collect()
}

const H: TileState = TileState::Hidden;
const V: TileState = TileState::Visible;
const F: TileState = TileState::Flagged;

#[test]
fn empty_field_has_hidden_mine_free_tiles() {
    let field = MineField::empty(4, 3);
    assert_eq!(field.width(), 4);
    assert_eq!(field.height(), 3);
    assert_eq!(field.mines(), 0);
    assert_eq!(field.flags(), 0);
    assert_eq!(field.iter_tiles().len(), 12);
    for tile in field.iter_tiles() {
        assert_eq!(*tile, Tile { state: TileState::Hidden, has_mine: false });
    }
}

#[test]
fn empty_field_without_tiles() {
    let field = MineField::empty(0, 5);
    assert_eq!(field.iter_tiles().len(), 0);
    assert_eq!(field.iter_positions(), vec![]);
    assert!(!field.position_is_valid(0, 0));
    assert_eq!(field.get_tile(0, 0), Err("Tile not in range"));
    assert_eq!(field.get_state(), MineFieldState::Cleared);
    assert_eq!(field.to_string(), "");
}

#[test]
fn positions_are_valid_inside_the_field_only() {
    let field = MineField::empty(4, 3);
    assert!(field.position_is_valid(0, 0));
    assert!(field.position_is_valid(2, 3));
    assert!(!field.position_is_valid(3, 0));
    assert!(!field.position_is_valid(0, 4));
    assert!(!field.position_is_valid(3, 4));
}

#[test]
fn positions_come_in_row_major_order() {
    let field = MineField::empty(3, 2);
    assert_eq!(
        field.iter_positions(),
        vec![(0, 0), (0, 1), (0, 2), (1, 0), (1, 1), (1, 2)]
    );
}

#[test]
fn tiles_are_stored_row_major() {
    let field = field_with_mines(3, 2, &[(1, 0)]);
    assert_eq!(field.iter_tiles()[3], Tile { state: H, has_mine: true });
    assert_eq!(field.get_tile(1, 0), Ok(&Tile { state: H, has_mine: true }));
    assert_eq!(field.get_tile(0, 1), Ok(&Tile { state: H, has_mine: false }));
    assert_eq!(field.has_mine_at(1, 0), Ok(true));
    assert_eq!(field.has_mine_at(0, 0), Ok(false));
}

#[test]
fn out_of_range_positions_are_reported() {
    let mut field = MineField::empty(3, 2);
    assert_eq!(field.get_tile(2, 0), Err("Tile not in range"));
    assert_eq!(field.get_tile(0, 3), Err("Tile not in range"));
    assert!(field.get_tile_mut(2, 0).is_err());
    assert_eq!(field.has_mine_at(5, 5), Err("Tile not in range"));
    assert_eq!(field.get_tile_state(2, 2), Err("Tile not in range"));
    assert_eq!(field.get_indices_near(2, 0), Err("Tile not in range"));
    assert_eq!(field.get_tiles_near(2, 0), Err("Tile not in range"));
    assert_eq!(field.count_mines_near(0, 3), Err("Tile not in range"));
    assert_eq!(field.has_mines_near(0, 3), Err("Tile not in range"));
    assert_eq!(field.toggle_flag(2, 0), Err("Tile not in range"));
    assert_eq!(field.dig_tile(2, 0), Err("Tile not in range"));
    assert_eq!(field.flood_empty_tiles(2, 0), Err("Tile not in range"));
    assert_eq!(field.do_chord(2, 0), Err("Tile not in range"));
    assert_eq!(field.char_for_tile(2, 0), Err("Tile not in range"));
    assert_eq!(states(&field), vec![H; 6]);
    assert_eq!(field.flags(), 0);
}

#[test]
fn neighbours_of_an_inner_tile() {
    let field = MineField::empty(3, 3);
    assert_eq!(
        field.get_indices_near(1, 1),
        Ok(vec![(0, 0), (0, 1), (0, 2), (1, 0), (1, 2), (2, 0), (2, 1), (2, 2)])
    );
}

#[test]
fn neighbours_are_clipped_at_corners_and_edges() {
    let field = MineField::empty(3, 3);
    assert_eq!(field.get_indices_near(0, 0), Ok(vec![(0, 1), (1, 0), (1, 1)]));
    assert_eq!(field.get_indices_near(2, 2), Ok(vec![(1, 1), (1, 2), (2, 1)]));
    assert_eq!(field.get_indices_near(0, 2), Ok(vec![(0, 1), (1, 1), (1, 2)]));
    assert_eq!(
        field.get_indices_near(0, 1),
        Ok(vec![(0, 0), (0, 2), (1, 0), (1, 1), (1, 2)])
    );
    assert_eq!(
        field.get_indices_near(1, 0),
        Ok(vec![(0, 0), (0, 1), (1, 1), (2, 0), (2, 1)])
    );
}

#[test]
fn single_tile_has_no_neighbours() {
    let field = MineField::empty(1, 1);
    assert_eq!(field.get_indices_near(0, 0), Ok(vec![]));
    assert_eq!(field.count_mines_near(0, 0), Ok(0));
    assert_eq!(field.has_mines_near(0, 0), Ok(false));
}

#[test]
fn neighbours_on_a_single_row_and_a_single_column() {
    let row = MineField::empty(3, 1);
    assert_eq!(row.get_indices_near(0, 0), Ok(vec![(0, 1)]));
    assert_eq!(row.get_indices_near(0, 1), Ok(vec![(0, 0), (0, 2)]));
    assert_eq!(row.get_indices_near(0, 2), Ok(vec![(0, 1)]));
    let column = MineField::empty(1, 3);
    assert_eq!(column.get_indices_near(1, 0), Ok(vec![(0, 0), (2, 0)]));
    assert_eq!(column.count_mines_near(1, 0), Ok(0));
}

#[test]
fn tiles_near_follow_the_positions_near() {
    let field = field_with_mines(3, 3, &[(0, 1), (2, 2)]);
    let mine = Tile { state: H, has_mine: true };
    let free = Tile { state: H, has_mine: false };
    assert_eq!(
        field.get_tiles_near(1, 1),
        Ok(vec![&free, &mine, &free, &free, &free, &free, &free, &mine])
    );
    assert_eq!(field.get_tiles_near(0, 0), Ok(vec![&mine, &free, &free]));
}

#[test]
fn mines_near_are_counted() {
    let field = field_with_mines(3, 3, &[(0, 0), (0, 1), (2, 2)]);
    assert_eq!(field.count_mines_near(1, 1), Ok(3));
    assert_eq!(field.count_mines_near(0, 0), Ok(1));
    assert_eq!(field.count_mines_near(0, 2), Ok(1));
    assert_eq!(field.count_mines_near(2, 0), Ok(0));
    assert_eq!(field.has_mines_near(1, 1), Ok(true));
    assert_eq!(field.has_mines_near(2, 0), Ok(false));
}

#[test]
fn a_tile_can_have_eight_mines_near() {
    let field = field_with_mines(
        3,
        3,
        &[(0, 0), (0, 1), (0, 2), (1, 0), (1, 2), (2, 0), (2, 1), (2, 2)],
    );
    assert_eq!(field.count_mines_near(1, 1), Ok(8));
    assert_eq!(field.mines(), 8);
}

#[test]
fn populate_places_exactly_the_mines_asked_for() {
    for amount in 0..=12 {
        let field = MineField::new(4, 3, amount).unwrap();
        assert_eq!(field.mines(), amount);
        let mined = field.iter_tiles().iter().filter(|tile| tile.has_mine).count();
        assert_eq!(mined, amount);
        assert_eq!(states(&field), vec![H; 12]);
        assert_eq!(field.flags(), 0);
    }
}

#[test]
fn populate_adds_to_the_mines_that_are_there() {
    let mut field = field_with_mines(4, 4, &[(0, 0), (1, 1), (2, 2), (3, 3)]);
    assert_eq!(field.populate(5), Ok(()));
    assert_eq!(field.mines(), 9);
    assert_eq!(field.iter_tiles().iter().filter(|tile| tile.has_mine).count(), 9);
    for at in [(0, 0), (1, 1), (2, 2), (3, 3)] {
        assert_eq!(field.has_mine_at(at.0, at.1), Ok(true));
    }
    assert_eq!(field.populate(7), Ok(()));
    assert_eq!(field.mines(), 16);
    assert!(field.iter_tiles().iter().all(|tile| tile.has_mine));
}

#[test]
fn populate_without_space_fails_and_changes_nothing() {
    let mut field = field_with_mines(3, 3, &[(0, 0), (1, 1)]);
    field.toggle_flag(2, 2).unwrap();
    let before: Vec<Tile> = field.iter_tiles().to_vec();
    assert_eq!(field.populate(8), Err("Not enough space for those mines."));
    assert_eq!(field.iter_tiles().to_vec(), before);
    assert_eq!(field.mines(), 2);
    assert_eq!(field.flags(), 1);
    assert_eq!(field.populate(7), Ok(()));
    assert_eq!(field.populate(1), Err("Not enough space for those mines."));
    assert_eq!(field.mines(), 9);
}

#[test]
fn new_fails_with_more_mines_than_tiles() {
    assert!(MineField::new(3, 3, 9).is_ok());
    assert_eq!(MineField::new(3, 3, 10).err(), Some("Not enough space for those mines."));
    assert_eq!(MineField::new(0, 3, 1).err(), Some("Not enough space for those mines."));
    assert!(MineField::new(0, 0, 0).is_ok());
}

#[test]
fn presets_have_their_sizes_and_mines() {
    for (field, width, height, mines) in [
        (MineField::beginner(), 10, 10, 10),
        (MineField::intermediate(), 15, 15, 40),
        (MineField::expert(), 30, 16, 99),
    ] {
        assert_eq!(field.width(), width);
        assert_eq!(field.height(), height);
        assert_eq!(field.mines(), mines);
        assert_eq!(field.flags(), 0);
        assert_eq!(field.iter_tiles().len(), width * height);
        assert_eq!(field.iter_tiles().iter().filter(|tile| tile.has_mine).count(), mines);
        assert!(field.iter_tiles().iter().all(|tile| tile.state == H));
    }
}

#[test]
fn mine_free_tiles_are_listed_in_order() {
    let field = field_with_mines(3, 2, &[(0, 1), (1, 2)]);
    assert_eq!(field.mine_free_tiles(), vec![0, 2, 3, 4]);
}

#[test]
fn picks_count_among_the_mine_free_tiles() {
    let mut field = field_with_mines(3, 2, &[(0, 1), (1, 2)]);
    // The free tiles stand at 0, 2, 3, 4: picks 1 and 3 are the tiles at 2 and 4.
    assert_eq!(field.populate_picked(&vec![3, 1]), Ok(()));
    let mined: Vec<bool> = field.iter_tiles().iter().map(|tile| tile.has_mine).collect();
    assert_eq!(mined, vec![false, true, true, false, true, true]);
    assert_eq!(field.mines(), 4);
}

#[test]
fn a_pick_given_twice_lays_one_mine() {
    let mut field = MineField::empty(2, 2);
    assert_eq!(field.populate_picked(&vec![2, 2, 0]), Ok(()));
    let mined: Vec<bool> = field.iter_tiles().iter().map(|tile| tile.has_mine).collect();
    assert_eq!(mined, vec![true, false, true, false]);
    assert_eq!(field.mines(), 2);
}

#[test]
fn a_pick_out_of_range_fails_and_changes_nothing() {
    let mut field = field_with_mines(2, 2, &[(0, 0)]);
    assert_eq!(field.populate_picked(&vec![0, 3]), Err("Tile not in range"));
    let mined: Vec<bool> = field.iter_tiles().iter().map(|tile| tile.has_mine).collect();
    assert_eq!(mined, vec![true, false, false, false]);
    assert_eq!(field.mines(), 1);
}

#[test]
fn toggle_flag_is_its_own_inverse() {
    let mut field = field_with_mines(3, 3, &[(1, 1)]);
    field.toggle_flag(0, 2).unwrap();
    let before: Vec<Tile> = field.iter_tiles().to_vec();
    for at in [(1, 1), (0, 2), (2, 0)] {
        field.toggle_flag(at.0, at.1).unwrap();
        assert_ne!(field.iter_tiles().to_vec(), before);
        field.toggle_flag(at.0, at.1).unwrap();
        assert_eq!(field.iter_tiles().to_vec(), before);
        assert_eq!(field.flags(), 1);
    }
}

#[test]
fn toggle_flag_counts_the_flags() {
    let mut field = MineField::empty(2, 2);
    field.toggle_flag(0, 0).unwrap();
    assert_eq!(field.get_tile_state(0, 0), Ok(F));
    assert_eq!(field.flags(), 1);
    field.toggle_flag(1, 1).unwrap();
    assert_eq!(field.flags(), 2);
    field.toggle_flag(0, 0).unwrap();
    assert_eq!(field.get_tile_state(0, 0), Ok(H));
    assert_eq!(field.flags(), 1);
    assert_eq!(states(&field), vec![H, H, H, F]);
}

#[test]
fn toggle_flag_leaves_a_visible_tile_alone() {
    let mut field = MineField::empty(2, 2);
    field.dig_tile(0, 1).unwrap();
    field.toggle_flag(0, 1).unwrap();
    assert_eq!(field.get_tile_state(0, 1), Ok(V));
    assert_eq!(field.flags(), 0);
}

#[test]
fn dig_tile_opens_hidden_tiles_only() {
    let mut field = field_with_mines(2, 2, &[(0, 0)]);
    field.toggle_flag(1, 1).unwrap();
    field.dig_tile(0, 0).unwrap();
    field.dig_tile(0, 1).unwrap();
    field.dig_tile(1, 1).unwrap();
    assert_eq!(states(&field), vec![V, V, H, F]);
    field.dig_tile(0, 1).unwrap();
    assert_eq!(states(&field), vec![V, V, H, F]);
    assert_eq!(field.flags(), 1);
    assert_eq!(field.mines(), 1);
}

#[test]
fn tile_can_be_changed_through_a_mutable_reference() {
    let mut field = MineField::empty(2, 2);
    {
        let tile = field.get_tile_mut(1, 0).unwrap();
        assert_eq!(*tile, Tile { state: H, has_mine: false });
        tile.state = TileState::Visible;
    }
    assert_eq!(states(&field), vec![H, H, V, H]);
    for tile in field.iter_mut_tiles().iter_mut() {
        tile.state = TileState::Visible;
    }
    assert_eq!(states(&field), vec![V; 4]);
}

#[test]
fn single_tile_field_is_cleared_after_one_dig() {
    let mut field = MineField::new(1, 1, 0).unwrap();
    assert_eq!(field.get_state(), MineFieldState::InProgress);
    assert_eq!(field.get_indices_near(0, 0), Ok(vec![]));
    field.flood_empty_tiles(0, 0).unwrap();
    assert_eq!(field.get_tile_state(0, 0), Ok(V));
    assert_eq!(field.get_state(), MineFieldState::Cleared);
}

#[test]
fn flood_stops_at_the_border_of_a_centre_mine() {
    let mut field = field_with_mines(3, 3, &[(1, 1)]);
    assert_eq!(field.has_mine_at(1, 1), Ok(true));
    assert_eq!(field.mines(), 1);
    assert_eq!(field.count_mines_near(0, 0), Ok(1));
    field.flood_empty_tiles(0, 0).unwrap();
    assert_eq!(states(&field), vec![V, H, H, H, H, H, H, H, H]);
    assert_eq!(field.get_state(), MineFieldState::InProgress);
}

#[test]
fn flood_opens_the_empty_region_and_its_border() {
    // 5 wide, 4 tall, mines at (0, 0) and (3, 4).
    let mut field = field_with_mines(5, 4, &[(0, 0), (3, 4)]);
    field.flood_empty_tiles(2, 0).unwrap();
    assert_eq!(
        states(&field),
        vec![
            H, V, V, V, V, //
            V, V, V, V, V, //
            V, V, V, V, V, //
            V, V, V, V, H, //
        ]
    );
    assert_eq!(field.get_state(), MineFieldState::Cleared);
}

#[test]
fn flood_does_not_cross_a_wall_of_numbers() {
    // 5 wide, 3 tall, a column of mines in the middle.
    let mut field = field_with_mines(5, 3, &[(0, 2), (1, 2), (2, 2)]);
    field.flood_empty_tiles(1, 0).unwrap();
    assert_eq!(
        states(&field),
        vec![
            V, V, H, H, H, //
            V, V, H, H, H, //
            V, V, H, H, H, //
        ]
    );
    assert_eq!(field.get_state(), MineFieldState::InProgress);
}

#[test]
fn flood_from_a_numbered_tile_opens_that_tile_only() {
    let mut field = field_with_mines(5, 3, &[(0, 2), (1, 2), (2, 2)]);
    field.flood_empty_tiles(1, 1).unwrap();
    let mut expected = vec![H; 15];
    expected[6] = V;
    assert_eq!(states(&field), expected);
}

#[test]
fn flood_on_a_mine_opens_it() {
    let mut field = field_with_mines(3, 3, &[(0, 0), (0, 1)]);
    field.flood_empty_tiles(0, 0).unwrap();
    assert_eq!(states(&field), vec![V, H, H, H, H, H, H, H, H]);
    assert_eq!(field.get_state(), MineFieldState::Failed);
}

#[test]
fn flood_passes_on_from_a_mine_with_no_mine_near() {
    let mut field = field_with_mines(3, 1, &[(0, 0)]);
    field.flood_empty_tiles(0, 0).unwrap();
    // The mine has no mine next to it, so the flood goes on to (0, 1),
    // which has one and stops it.
    assert_eq!(states(&field), vec![V, V, H]);
    assert_eq!(field.get_state(), MineFieldState::Failed);
}

#[test]
fn flood_on_a_visible_tile_does_nothing() {
    let mut field = MineField::empty(3, 1);
    field.dig_tile(0, 0).unwrap();
    field.flood_empty_tiles(0, 0).unwrap();
    assert_eq!(states(&field), vec![V, H, H]);
}

#[test]
fn flood_is_stopped_by_a_visible_tile() {
    let mut field = MineField::empty(3, 1);
    field.dig_tile(0, 1).unwrap();
    field.flood_empty_tiles(0, 0).unwrap();
    assert_eq!(states(&field), vec![V, V, H]);
}

#[test]
fn flood_keeps_flags_and_passes_through_them() {
    let mut field = MineField::empty(3, 1);
    field.toggle_flag(0, 1).unwrap();
    field.flood_empty_tiles(0, 0).unwrap();
    assert_eq!(states(&field), vec![V, F, V]);
    assert_eq!(field.flags(), 1);
}

#[test]
fn flood_ends_on_flags_that_touch() {
    let mut field = MineField::empty(4, 1);
    field.toggle_flag(0, 1).unwrap();
    field.toggle_flag(0, 2).unwrap();
    field.flood_empty_tiles(0, 1).unwrap();
    assert_eq!(states(&field), vec![V, F, F, V]);
    assert_eq!(field.flags(), 2);
}

#[test]
fn flood_is_idempotent() {
    let mut field = field_with_mines(6, 5, &[(0, 0), (2, 3), (4, 5)]);
    field.toggle_flag(1, 1).unwrap();
    field.toggle_flag(4, 0).unwrap();
    field.flood_empty_tiles(4, 1).unwrap();
    let once: Vec<Tile> = field.iter_tiles().to_vec();
    assert!(once.iter().any(|tile| tile.state == V));
    field.flood_empty_tiles(4, 1).unwrap();
    assert_eq!(field.iter_tiles().to_vec(), once);
    field.flood_empty_tiles(4, 0).unwrap();
    let flagged_start: Vec<Tile> = field.iter_tiles().to_vec();
    field.flood_empty_tiles(4, 0).unwrap();
    assert_eq!(field.iter_tiles().to_vec(), flagged_start);
    assert_eq!(field.flags(), 2);
    assert_eq!(field.mines(), 3);
}

#[test]
fn flood_opens_a_large_field_without_mines() {
    let mut field = MineField::empty(300, 200);
    field.flood_empty_tiles(100, 100).unwrap();
    assert!(field.iter_tiles().iter().all(|tile| tile.state == V));
    assert_eq!(field.get_state(), MineFieldState::Cleared);
}

#[test]
fn opening_candidates_hold_no_mine_and_have_none_near() {
    let field = field_with_mines(4, 2, &[(0, 0)]);
    assert_eq!(
        field.opening_candidates(),
        vec![(0, 2), (0, 3), (1, 2), (1, 3)]
    );
    let dense = MineField::new(3, 3, 9).unwrap();
    assert_eq!(dense.opening_candidates(), vec![]);
}

#[test]
fn first_opening_floods_from_a_candidate() {
    for _ in 0..20 {
        let mut field = field_with_mines(4, 2, &[(0, 0)]);
        let opened = field.clear_first_opening();
        let at = opened.unwrap();
        assert!([(0, 2), (0, 3), (1, 2), (1, 3)].contains(&at));
        // (1, 0) touches numbered tiles only, so the flood does not reach it.
        assert_eq!(states(&field), vec![H, V, V, V, H, V, V, V]);
        assert_eq!(field.get_state(), MineFieldState::InProgress);
    }
}

#[test]
fn first_opening_picks_the_only_candidate() {
    let mut field = field_with_mines(3, 1, &[(0, 0)]);
    assert_eq!(field.clear_first_opening(), Some((0, 2)));
    assert_eq!(states(&field), vec![H, V, V]);
}

#[test]
fn first_opening_on_a_dense_field_opens_nothing() {
    let mut field = field_with_mines(3, 1, &[(0, 1)]);
    assert_eq!(field.clear_first_opening(), None);
    assert_eq!(states(&field), vec![H, H, H]);
    let mut none = MineField::empty(0, 0);
    assert_eq!(none.clear_first_opening(), None);
}

#[test]
fn chord_opens_the_hidden_neighbours() {
    let mut field = field_with_mines(3, 3, &[(0, 0)]);
    field.dig_tile(1, 1).unwrap();
    field.toggle_flag(0, 0).unwrap();
    assert_eq!(field.do_chord(1, 1), Ok(()));
    assert_eq!(states(&field), vec![F, V, V, V, V, V, V, V, V]);
    assert_eq!(field.get_state(), MineFieldState::Cleared);
    assert_eq!(field.flags(), 1);
}

#[test]
fn chord_does_nothing_when_the_counts_differ() {
    let mut field = field_with_mines(3, 3, &[(0, 0)]);
    field.dig_tile(1, 1).unwrap();
    assert_eq!(field.do_chord(1, 1), Ok(()));
    assert_eq!(states(&field), vec![H, H, H, H, V, H, H, H, H]);
    field.toggle_flag(0, 0).unwrap();
    field.toggle_flag(0, 1).unwrap();
    assert_eq!(field.do_chord(1, 1), Ok(()));
    assert_eq!(states(&field), vec![F, F, H, H, V, H, H, H, H]);
}

#[test]
fn chord_does_nothing_on_a_covered_tile() {
    let mut field = MineField::empty(3, 3);
    assert_eq!(field.do_chord(1, 1), Ok(()));
    assert_eq!(states(&field), vec![H; 9]);
    field.toggle_flag(1, 1).unwrap();
    assert_eq!(field.do_chord(1, 1), Ok(()));
    assert_eq!(states(&field), vec![H, H, H, H, F, H, H, H, H]);
}

#[test]
fn chord_trusts_a_wrong_flag() {
    let mut field = field_with_mines(3, 3, &[(0, 0)]);
    field.dig_tile(1, 1).unwrap();
    field.toggle_flag(0, 1).unwrap();
    assert_eq!(field.do_chord(1, 1), Ok(()));
    assert_eq!(field.get_tile_state(0, 0), Ok(V));
    assert_eq!(field.get_tile_state(0, 1), Ok(F));
    assert_eq!(field.get_state(), MineFieldState::Failed);
}

#[test]
fn chord_with_mines_opens_only_the_numbered_neighbours() {
    // 4 wide, 3 tall; mines at (0, 0) and (2, 0), both flagged.
    let mut field = field_with_mines(4, 3, &[(0, 0), (2, 0)]);
    field.dig_tile(1, 1).unwrap();
    field.toggle_flag(0, 0).unwrap();
    field.toggle_flag(2, 0).unwrap();
    assert_eq!(field.do_chord(1, 1), Ok(()));
    assert_eq!(
        states(&field),
        vec![
            F, V, V, V, //
            V, V, V, V, //
            F, V, V, V, //
        ]
    );
}

#[test]
fn state_is_failed_as_soon_as_a_mine_lies_open() {
    let mut field = field_with_mines(2, 2, &[(1, 1)]);
    assert_eq!(field.get_state(), MineFieldState::InProgress);
    field.dig_tile(0, 0).unwrap();
    assert_eq!(field.get_state(), MineFieldState::InProgress);
    field.dig_tile(1, 1).unwrap();
    assert_eq!(field.get_state(), MineFieldState::Failed);
    field.dig_tile(0, 1).unwrap();
    field.dig_tile(1, 0).unwrap();
    assert_eq!(field.get_state(), MineFieldState::Failed);
}

#[test]
fn state_is_cleared_when_no_mine_free_tile_is_hidden() {
    let mut field = field_with_mines(2, 2, &[(1, 1)]);
    field.dig_tile(0, 0).unwrap();
    field.dig_tile(0, 1).unwrap();
    assert_eq!(field.get_state(), MineFieldState::InProgress);
    field.dig_tile(1, 0).unwrap();
    assert_eq!(field.get_state(), MineFieldState::Cleared);
}

#[test]
fn state_counts_a_flagged_tile_as_solved() {
    let mut field = field_with_mines(2, 1, &[(0, 0)]);
    field.toggle_flag(0, 1).unwrap();
    assert_eq!(field.get_state(), MineFieldState::Cleared);
    let full = MineField::new(2, 2, 4).unwrap();
    assert_eq!(full.get_state(), MineFieldState::Cleared);
}

#[test]
fn game_over_shows_all_but_the_right_flags() {
    let mut field = field_with_mines(2, 2, &[(0, 0), (1, 0)]);
    field.toggle_flag(0, 0).unwrap();
    field.toggle_flag(0, 1).unwrap();
    field.game_over();
    assert_eq!(
        field.iter_tiles().to_vec(),
        vec![
            Tile { state: F, has_mine: true },
            Tile { state: V, has_mine: false },
            Tile { state: V, has_mine: true },
            Tile { state: V, has_mine: false },
        ]
    );
    assert_eq!(field.flags(), 1);
    assert_eq!(field.mines(), 2);
    field.game_over();
    assert_eq!(states(&field), vec![F, V, V, V]);
    assert_eq!(field.flags(), 1);
}

#[test]
fn fields_made_by_the_library_are_well_formed() {
    let mut field = field_with_mines(4, 3, &[(0, 0), (2, 3)]);
    assert!(field.is_well_formed());
    field.toggle_flag(1, 1).unwrap();
    field.toggle_flag(0, 0).unwrap();
    field.flood_empty_tiles(2, 0).unwrap();
    field.do_chord(1, 0).unwrap();
    field.populate(3).unwrap();
    assert!(field.is_well_formed());
    field.game_over();
    assert!(field.is_well_formed());
    assert!(MineField::empty(0, 0).is_well_formed());
    assert!(MineField::expert().is_well_formed());
}

#[test]
fn writing_a_mine_or_a_flag_by_hand_breaks_the_counters() {
    let mut field = MineField::empty(2, 2);
    field.get_tile_mut(0, 0).unwrap().has_mine = true;
    assert!(!field.is_well_formed());
    field.get_tile_mut(0, 0).unwrap().has_mine = false;
    assert!(field.is_well_formed());
    field.iter_mut_tiles()[3].state = TileState::Flagged;
    assert!(!field.is_well_formed());
    field.iter_mut_tiles()[3].state = TileState::Visible;
    assert!(field.is_well_formed());
}

/// A field of hidden tiles with a mine written by hand on each of `mines`,
/// so that the mine counter stays at zero.
fn hand_mined_field(width: usize, height: usize, mines: &[(usize, usize)]) -> MineField {
    let mut field = MineField::empty(width, height);
    for (row, column) in mines {
        field.get_tile_mut(*row, *column).unwrap().has_mine = true;
    }
    field
}

#[test]
fn hand_mined_field_keeps_its_shape_and_its_flag_counter() {
    let field = hand_mined_field(3, 3, &[(1, 1)]);
    assert!(field.is_shaped());
    assert!(field.has_counted_flags());
    assert!(!field.has_counted_mines());
    assert!(!field.is_well_formed());
    assert_eq!(field.mines(), 0);
}

#[test]
fn flood_stops_at_the_border_of_a_hand_laid_centre_mine() {
    let mut field = hand_mined_field(3, 3, &[(1, 1)]);
    assert_eq!(field.flood_empty_tiles(0, 0), Ok(()));
    assert_eq!(states(&field), vec![V, H, H, H, H, H, H, H, H]);
    assert_eq!(field.get_state(), MineFieldState::InProgress);
}

#[test]
fn flood_from_a_hand_laid_mine_with_no_mine_near_opens_the_field() {
    let mut field = hand_mined_field(3, 3, &[(1, 1)]);
    assert_eq!(field.flood_empty_tiles(1, 1), Ok(()));
    assert_eq!(states(&field), vec![V; 9]);
    assert_eq!(field.get_state(), MineFieldState::Failed);
}

#[test]
fn open_hand_laid_mine_fails_the_game_before_it_is_in_progress() {
    let mut field = hand_mined_field(2, 2, &[(0, 0)]);
    field.dig_tile(0, 0).unwrap();
    assert_eq!(states(&field), vec![V, H, H, H]);
    assert_eq!(field.get_state(), MineFieldState::Failed);
}

#[test]
fn chord_next_to_a_rightly_flagged_hand_laid_mine() {
    let mut field = hand_mined_field(3, 3, &[(0, 0)]);
    field.toggle_flag(0, 0).unwrap();
    field.dig_tile(1, 1).unwrap();
    assert_eq!(field.do_chord(1, 1), Ok(()));
    assert_eq!(states(&field), vec![F, V, V, V, V, V, V, V, V]);
    assert_eq!(field.flags(), 1);
    assert_eq!(field.get_state(), MineFieldState::Cleared);
}

#[test]
fn chord_next_to_a_wrong_flag_on_a_hand_mined_field() {
    let mut field = hand_mined_field(3, 3, &[(0, 0)]);
    field.toggle_flag(0, 1).unwrap();
    field.dig_tile(1, 1).unwrap();
    assert_eq!(field.do_chord(1, 1), Ok(()));
    assert_eq!(states(&field), vec![V, F, V, V, V, V, V, V, V]);
    assert_eq!(field.get_state(), MineFieldState::Failed);
}

#[test]
fn game_over_on_a_hand_mined_field() {
    let mut field = hand_mined_field(2, 2, &[(0, 0)]);
    field.toggle_flag(0, 0).unwrap();
    field.toggle_flag(0, 1).unwrap();
    field.game_over();
    assert_eq!(states(&field), vec![F, V, V, V]);
    assert_eq!(field.flags(), 1);
}

#[test]
fn first_opening_on_a_hand_mined_field_without_a_candidate() {
    let mut field = hand_mined_field(3, 3, &[(1, 1)]);
    assert_eq!(field.opening_candidates(), vec![]);
    assert_eq!(field.clear_first_opening(), None);
    assert_eq!(states(&field), vec![H; 9]);
}

#[test]
fn queries_and_text_work_on_a_hand_mined_field() {
    let mut field = hand_mined_field(3, 1, &[(0, 0)]);
    assert_eq!(field.count_mines_near(0, 1), Ok(1));
    assert_eq!(field.has_mines_near(0, 2), Ok(false));
    assert_eq!(field.has_mine_at(0, 0), Ok(true));
    field.dig_tile(0, 1).unwrap();
    assert_eq!(field.to_string(), "# \x1b[38;5;12m1\x1b[39m # ");
}

#[test]
fn populate_counts_the_free_tiles_of_a_hand_mined_field() {
    let mut field = hand_mined_field(2, 2, &[(0, 0), (1, 1)]);
    assert_eq!(field.mine_free_tiles(), vec![1, 2]);
    assert_eq!(field.populate(3), Err("Not enough space for those mines."));
    assert_eq!(field.mines(), 0);
    assert_eq!(field.populate(2), Ok(()));
    assert!(field.iter_tiles().iter().all(|tile| tile.has_mine));
    // The counter rises by the mines that were laid, from where it stood.
    assert_eq!(field.mines(), 2);
    assert_eq!(field.populate(0), Ok(()));
    assert_eq!(field.populate(1), Err("Not enough space for those mines."));
}
