use binero::engine::Binero;
use binero::difficulty::Difficulty;
use binero::size::Size;
use binero::value::Value;

/// The number of cells of `game` that hold `value`, row by row.
fn count_value_in_row(game: &Binero, row: u8, value: Value) -> u32 {
    let side = game.size().as_u8();
    let mut count = 0;
    for y in 0..side {
        if game.get(row, y) == Some(value) {
            count += 1;
        }
    }
    count
}

fn count_value_in_column(game: &Binero, column: u8, value: Value) -> u32 {
    let side = game.size().as_u8();
    let mut count = 0;
    for x in 0..side {
        if game.get(x, column) == Some(value) {
            count += 1;
        }
    }
    count
}

/// Checks both puzzle constraints over the whole grid: never more than
/// half of one value in a row or column, and never three equal values in
/// a row.
fn assert_constraints_hold(game: &Binero) {
    let side = game.size().as_u8();
    let half = (side / 2) as u32;
    for i in 0..side {
        for value in [Value::First, Value::Second] {
            assert!(count_value_in_row(game, i, value) <= half);
            assert!(count_value_in_column(game, i, value) <= half);
        }
        for k in 0..side - 2 {
            let a = game.get(i, k);
            let b = game.get(i, k + 1);
            let c = game.get(i, k + 2);
            assert!(a.is_none() || a != b || b != c);
            let a = game.get(k, i);
            let b = game.get(k + 1, i);
            let c = game.get(k + 2, i);
            assert!(a.is_none() || a != b || b != c);
        }
    }
}

fn count_empty_cells(game: &Binero) -> u32 {
    let side = game.size().as_u8();
    let mut count = 0;
    for x in 0..side {
        for y in 0..side {
            if game.get(x, y).is_none() {
                count += 1;
            }
        }
    }
    count
}

/// The first empty cell of the grid, scanning row-major.
fn first_empty_cell(game: &Binero) -> (u8, u8) {
    let side = game.size().as_u8();
    for x in 0..side {
        for y in 0..side {
            if game.get(x, y).is_none() {
                return (x, y);
            }
        }
    }
    panic!("the generated puzzle has no empty cell");
}

#[test]
fn generated_puzzle_keeps_both_constraints() {
    let game = Binero::new(Size::Side6, Difficulty::Beginner);
    assert_eq!(game.size(), Size::Side6);
    assert!(!game.is_full());
    assert_constraints_hold(&game);
}

#[test]
fn solving_a_generated_puzzle_balances_every_row_and_column() {
    let mut game = Binero::new(Size::Side6, Difficulty::Medium);
    assert!(game.try_to_solve());
    assert!(game.is_full());
    let half = 3;
    for i in 0..6u8 {
        assert_eq!(count_value_in_row(&game, i, Value::First), half);
        assert_eq!(count_value_in_row(&game, i, Value::Second), half);
        assert_eq!(count_value_in_column(&game, i, Value::First), half);
        assert_eq!(count_value_in_column(&game, i, Value::Second), half);
    }
    assert_constraints_hold(&game);
}

#[test]
fn solving_preserves_the_given_cells() {
    let mut game = Binero::new(Size::Side6, Difficulty::Medium);
    let mut givens = Vec::new();
    for x in 0..6u8 {
        for y in 0..6u8 {
            givens.push(game.get(x, y));
        }
    }
    assert!(game.try_to_solve());
    let mut index = 0;
    for x in 0..6u8 {
        for y in 0..6u8 {
            if let Some(v) = givens[index] {
                assert_eq!(game.get(x, y), Some(v));
            }
            index += 1;
        }
    }
}

#[test]
fn solving_after_a_user_move_still_fills_the_grid() {
    let mut game = Binero::new(Size::Side6, Difficulty::Easy);
    let (x, y) = first_empty_cell(&game);
    let put = game.try_to_put(x, y, Some(Value::First))
        || game.try_to_put(x, y, Some(Value::Second));
    assert!(put);
    assert!(game.try_to_solve());
    assert!(game.is_full());
    assert_constraints_hold(&game);
}

#[test]
fn undo_and_redo_are_inverses_of_a_put() {
    let mut game = Binero::new(Size::Side6, Difficulty::Beginner);
    assert!(game.try_to_undo().is_none());
    assert!(game.try_to_redo().is_none());

    let (x, y) = first_empty_cell(&game);
    let value = if game.try_to_put(x, y, Some(Value::First)) {
        Value::First
    } else {
        assert!(game.try_to_put(x, y, Some(Value::Second)));
        Value::Second
    };
    assert_eq!(game.get(x, y), Some(value));

    let undone = game.try_to_undo().expect("one move must be undoable");
    assert_eq!(undone.x_axis(), x);
    assert_eq!(undone.y_axis(), y);
    assert_eq!(undone.old_value(), None);
    assert_eq!(undone.new_value(), Some(value));
    assert_eq!(game.get(x, y), None);

    let redone = game.try_to_redo().expect("the move must be redoable");
    assert_eq!(redone.new_value(), Some(value));
    assert_eq!(game.get(x, y), Some(value));

    let undone_again = game.try_to_undo().expect("undo must work again");
    assert_eq!(undone_again.new_value(), Some(value));
    assert_eq!(game.get(x, y), None);
}

#[test]
fn a_new_move_after_undo_discards_the_redo_branch() {
    let mut game = Binero::new(Size::Side6, Difficulty::Beginner);
    let (x, y) = first_empty_cell(&game);
    let value = if game.try_to_put(x, y, Some(Value::First)) {
        Value::First
    } else {
        assert!(game.try_to_put(x, y, Some(Value::Second)));
        Value::Second
    };
    assert!(game.try_to_undo().is_some());
    assert!(game.try_to_redo().is_some());
    assert!(game.try_to_undo().is_some());
    assert!(game.try_to_put(x, y, Some(value)));
    assert!(game.try_to_redo().is_none());
}

#[test]
fn erasing_a_cell_is_always_recorded() {
    let mut game = Binero::new(Size::Side6, Difficulty::Beginner);
    let (x, y) = first_empty_cell(&game);
    let value = if game.try_to_put(x, y, Some(Value::First)) {
        Value::First
    } else {
        assert!(game.try_to_put(x, y, Some(Value::Second)));
        Value::Second
    };
    assert!(game.try_to_put(x, y, None));
    assert_eq!(game.get(x, y), None);
    let undone = game.try_to_undo().expect("the erasure must be undoable");
    assert_eq!(undone.old_value(), Some(value));
    assert_eq!(game.get(x, y), Some(value));
}

#[test]
fn clear_history_forgets_the_trail() {
    let mut game = Binero::new(Size::Side6, Difficulty::Beginner);
    let (x, y) = first_empty_cell(&game);
    let put = game.try_to_put(x, y, Some(Value::First))
        || game.try_to_put(x, y, Some(Value::Second));
    assert!(put);
    game.clear_history();
    assert!(game.try_to_undo().is_none());
    assert!(game.try_to_redo().is_none());
}

#[test]
fn illegal_placement_changes_nothing() {
    let mut game = Binero::new(Size::Side6, Difficulty::Beginner);
    let mut snapshot = Vec::new();
    for x in 0..6u8 {
        for y in 0..6u8 {
            snapshot.push(game.get(x, y));
        }
    }
    let mut refused_some = false;
    'outer: for x in 0..6u8 {
        for y in 0..6u8 {
            if game.get(x, y).is_none() {
                for value in [Value::First, Value::Second] {
                    if !game.try_to_put(x, y, Some(value)) {
                        refused_some = true;
                        break 'outer;
                    } else {
                        assert!(game.try_to_undo().is_some());
                    }
                }
            }
        }
    }
    if refused_some {
        let mut index = 0;
        for x in 0..6u8 {
            for y in 0..6u8 {
                assert_eq!(game.get(x, y), snapshot[index]);
                index += 1;
            }
        }
    }
}

#[test]
fn larger_grids_are_generated_too() {
    let game = Binero::new(Size::Side8, Difficulty::Beginner);
    assert_eq!(game.size(), Size::Side8);
    assert!(!game.is_full());
    assert_constraints_hold(&game);
}

/// Each difficulty has a share of the grid it may empty at most: half of
/// the 36 cells for Beginner, two thirds for Easy. The harder levels have
/// no effective cap on a 6 by 6 grid, where the uniqueness safeguard is
/// what limits removal, so averages of the two hardest levels almost
/// coincide; the lowest and the highest level keep a wide, testable gap.
#[test]
fn harder_puzzles_remove_at_least_as_many_cells_on_average() {
    let runs = 30;
    let mut beginner_total = 0;
    let mut hard_total = 0;
    for _ in 0..runs {
        let beginner = Binero::new(Size::Side6, Difficulty::Beginner);
        let easy = Binero::new(Size::Side6, Difficulty::Easy);
        let hard = Binero::new(Size::Side6, Difficulty::Hard);
        assert!(count_empty_cells(&beginner) <= 18);
        assert!(count_empty_cells(&easy) <= 24);
        beginner_total += count_empty_cells(&beginner);
        hard_total += count_empty_cells(&hard);
    }
    assert!(hard_total >= beginner_total);
}

