use tray_tui::app::{next_index, App, FocusDirection};
use tray_tui::config::Config;

fn app_with(n: usize, columns: usize) -> App {
    let mut config = Config::default();
    config.columns = columns;
    let mut app = App::new(config);
    let live: Vec<(String, String)> = (0..n)
        .map(|i| (format!("id{i}"), format!("title{i}")))
        .collect();
    app.update(&live);
    app
}

#[test]
fn right_wraps_after_length_steps() {
    // Applying Right `length` times returns to the start index.
    for length in 1..8usize {
        for columns in 1..4usize {
            for start in 0..length {
                let mut i = start;
                for _ in 0..length {
                    i = next_index(i, FocusDirection::Right, length, columns);
                }
                assert_eq!(i, start);
            }
        }
    }
}

#[test]
fn left_wraps_after_length_steps() {
    for length in 1..8usize {
        for columns in 1..4usize {
            for start in 0..length {
                let mut i = start;
                for _ in 0..length {
                    i = next_index(i, FocusDirection::Left, length, columns);
                }
                assert_eq!(i, start);
            }
        }
    }
}

#[test]
fn down_walks_and_wraps_on_short_last_row() {
    // length=7, columns=3, index=0: Down -> 3 -> 6 -> 0 (6+3=9 >= 7 wraps).
    let length = 7;
    let columns = 3;
    let i1 = next_index(0, FocusDirection::Down, length, columns);
    assert_eq!(i1, 3);
    let i2 = next_index(i1, FocusDirection::Down, length, columns);
    assert_eq!(i2, 6);
    let i3 = next_index(i2, FocusDirection::Down, length, columns);
    assert_eq!(i3, 0);
}

#[test]
fn up_wraps_to_bottom_of_same_column() {
    // length=7, columns=3: column of 1 holds 1 and 4; Up from 1 lands on 4.
    assert_eq!(next_index(1, FocusDirection::Up, 7, 3), 4);
    // Column of 0 holds 0, 3 and 6; Up from 0 lands on 6.
    assert_eq!(next_index(0, FocusDirection::Up, 7, 3), 6);
    // A plain step back one row.
    assert_eq!(next_index(5, FocusDirection::Up, 7, 3), 2);
}

#[test]
fn single_entry_never_moves() {
    for dir in [
        FocusDirection::Up,
        FocusDirection::Down,
        FocusDirection::Left,
        FocusDirection::Right,
    ] {
        assert_eq!(next_index(0, dir, 1, 3), 0);
        assert_eq!(next_index(0, dir, 0, 3), 0);
    }
}

#[test]
fn move_focus_follows_grid() {
    let mut app = app_with(7, 3);
    assert_eq!(app.get_focused_sni_index(), Some(0));
    app.move_focus(FocusDirection::Down);
    assert_eq!(app.get_focused_sni_index(), Some(3));
    app.move_focus(FocusDirection::Down);
    assert_eq!(app.get_focused_sni_index(), Some(6));
    app.move_focus(FocusDirection::Down);
    assert_eq!(app.get_focused_sni_index(), Some(0));
    app.move_focus(FocusDirection::Left);
    assert_eq!(app.get_focused_sni_index(), Some(6));
    app.move_focus(FocusDirection::Right);
    assert_eq!(app.get_focused_sni_index(), Some(0));
}

#[test]
fn focused_key_follows_move() {
    let mut app = app_with(3, 3);
    assert_eq!(app.get_focused_sni_key().unwrap().as_str(), "id0");
    app.move_focus(FocusDirection::Right);
    assert_eq!(app.get_focused_sni_key().unwrap().as_str(), "id1");
    let focused = app.state_at(1).unwrap();
    assert!(focused.focused);
    assert!(!app.state_at(0).unwrap().focused);
}
