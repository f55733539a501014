use binero::grid::Grid;
use binero::size::Size;
use binero::value::Value;

#[test]
fn empty_grid_accepts_any_value() {
    let grid = Grid::new(Size::Side6);
    assert!(grid.can_put(0, 0, Value::First));
    assert!(grid.can_put(0, 0, Value::Second));
    assert!(grid.can_put(5, 5, Value::First));
}

#[test]
fn run_of_three_is_rejected() {
    let mut grid = Grid::new(Size::Side6);
    grid.put(0, 0, Some(Value::First));
    grid.put(0, 1, Some(Value::First));
    assert!(!grid.can_put(0, 2, Value::First));
    assert!(grid.can_put(0, 2, Value::Second));
}

#[test]
fn run_of_three_in_column_is_rejected() {
    let mut grid = Grid::new(Size::Side6);
    grid.put(0, 0, Some(Value::Second));
    grid.put(1, 0, Some(Value::Second));
    assert!(!grid.can_put(2, 0, Value::Second));
    assert!(grid.can_put(2, 0, Value::First));
}

#[test]
fn balance_forces_the_last_cell() {
    let mut grid = Grid::new(Size::Side6);
    grid.put(0, 0, Some(Value::First));
    grid.put(0, 1, Some(Value::First));
    grid.put(0, 2, Some(Value::Second));
    grid.put(0, 3, Some(Value::First));
    grid.put(0, 4, Some(Value::Second));
    assert!(grid.must_put(0, 5, Value::Second));
    assert!(!grid.can_put(0, 5, Value::First));
    assert!(grid.can_put(0, 5, Value::Second));
}

#[test]
fn must_put_never_allows_the_other_value() {
    let mut grid = Grid::new(Size::Side6);
    grid.put(0, 0, Some(Value::First));
    grid.put(0, 1, Some(Value::First));
    for value in [Value::First, Value::Second] {
        for x in 0..6u8 {
            for y in 0..6u8 {
                if grid.must_put(x, y, value) {
                    assert!(!grid.can_put(x, y, value.the_other()));
                }
            }
        }
    }
}

#[test]
fn put_returns_previous_value_and_counts_empties() {
    let mut grid = Grid::new(Size::Side6);
    assert_eq!(grid.empty_values(), 36);
    assert!(!grid.is_full());
    let previous = grid.put(2, 3, Some(Value::First));
    assert!(previous.is_none());
    assert_eq!(grid.empty_values(), 35);
    let previous = grid.put(2, 3, Some(Value::Second));
    assert_eq!(previous, Some(Value::First));
    assert_eq!(grid.empty_values(), 35);
    let previous = grid.put(2, 3, None);
    assert_eq!(previous, Some(Value::Second));
    assert_eq!(grid.empty_values(), 36);
    assert_eq!(grid.get(2, 3), None);
}

#[test]
fn grid_is_full_once_every_cell_is_set() {
    let mut grid = Grid::new(Size::Side6);
    for x in 0..6u8 {
        for y in 0..6u8 {
            grid.put(x, y, Some(Value::First));
        }
    }
    assert!(grid.is_full());
    assert_eq!(grid.empty_values(), 0);
}

#[test]
fn grid_size_is_kept() {
    let grid = Grid::new(Size::Side10);
    assert_eq!(grid.size(), Size::Side10);
    assert_eq!(grid.size().as_u8(), 10);
}
