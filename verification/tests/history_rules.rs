use binero::grid::Grid;
use binero::history::History;
use binero::size::Size;
use binero::value::Value;

#[test]
fn fresh_history_allows_nothing() {
    let history = History::new();
    assert!(!history.is_undo_possible());
    assert!(!history.is_redo_possible());
    assert_eq!(history.current_item(), None);
}

#[test]
fn push_then_undo_then_redo_returns_the_same_item() {
    let mut history = History::new();
    history.push(1, 2, None, Some(Value::First), true);
    assert!(history.is_undo_possible());
    assert!(!history.is_redo_possible());
    assert_eq!(history.current_item(), Some(0));

    let item = history.undo();
    assert_eq!(item.x_axis(), 1);
    assert_eq!(item.y_axis(), 2);
    assert_eq!(item.old_value(), None);
    assert_eq!(item.new_value(), Some(Value::First));
    assert!(!history.is_undo_possible());
    assert!(history.is_redo_possible());
    assert_eq!(history.current_item(), None);

    let item = history.redo();
    assert_eq!(item.x_axis(), 1);
    assert_eq!(item.y_axis(), 2);
    assert_eq!(item.new_value(), Some(Value::First));
    assert_eq!(history.current_item(), Some(0));
    assert!(!history.is_redo_possible());
}

#[test]
fn a_new_push_discards_the_undone_tail() {
    let mut history = History::new();
    history.push(0, 0, None, Some(Value::First), true);
    history.push(0, 1, None, Some(Value::Second), false);
    history.undo();
    assert!(history.is_redo_possible());
    history.push(2, 2, None, Some(Value::First), true);
    assert!(!history.is_redo_possible());
    assert_eq!(history.current_item(), Some(1));
}

#[test]
fn latest_choice_pops_in_reverse_order() {
    let mut history = History::new();
    history.push(0, 0, None, Some(Value::First), true);
    history.push(0, 1, None, Some(Value::Second), false);
    history.push(0, 2, None, Some(Value::First), true);
    assert_eq!(history.latest_choice(), Some(2));
    assert_eq!(history.latest_choice(), Some(0));
    assert_eq!(history.latest_choice(), None);
}

#[test]
fn clear_empties_the_trail() {
    let mut history = History::new();
    history.push(0, 0, None, Some(Value::First), true);
    history.push(3, 3, Some(Value::First), Some(Value::Second), false);
    history.clear();
    assert!(!history.is_undo_possible());
    assert!(!history.is_redo_possible());
    assert_eq!(history.current_item(), None);
    assert_eq!(history.latest_choice(), None);
}

#[test]
fn undo_restores_an_empty_cell() {
    let mut grid = Grid::new(Size::Side6);
    let mut history = History::new();
    let previous = grid.put(0, 0, Some(Value::First));
    history.push(0, 0, previous, Some(Value::First), true);
    assert_eq!(grid.get(0, 0), Some(Value::First));

    let item = history.undo();
    grid.put(item.x_axis(), item.y_axis(), item.old_value());
    assert_eq!(grid.get(0, 0), None);
}
