use memo::app::{
    build_row_map, swap_level, total_level, Action, App, Key, Mouse, RowMap, ScanUpdate,
    SortColumn, SwapLevel, TotalLevel,
};
use memo::group::GroupMode;
use memo::scanner::ProcessMemory;

fn pm(pid: i32, name: &str, rss: u64) -> ProcessMemory {
    ProcessMemory::new(pid, name.into(), rss)
}

fn app_with(procs: Vec<ProcessMemory>) -> App {
    let mut app = App::new("/tmp/memo-test-home".to_string());
    app.group_mode = GroupMode::App;
    app.set_processes(procs);
    app.row_map = build_row_map(&app.groups, app.expanded_group);
    app
}

#[test]
fn row_map_starts_empty() {
    assert!(RowMap::new().entries.is_empty());
}

#[test]
fn new_app_defaults() {
    let app = App::new("/h".to_string());
    assert_eq!(app.group_mode, GroupMode::Project);
    assert_eq!(app.sort_column, SortColumn::Total);
    assert!(app.sort_desc);
    assert!(app.group_state.selected().is_none());
    assert!(!app.should_quit);
}

#[test]
fn next_then_prev_returns_to_the_same_row() {
    let mut app = app_with(vec![pm(1, "a", 3), pm(2, "b", 2), pm(3, "c", 1)]);
    assert_eq!(app.group_state.selected(), Some(0));
    app.next_group();
    assert_eq!(app.group_state.selected(), Some(1));
    app.prev_group();
    assert_eq!(app.group_state.selected(), Some(0));
    app.prev_group();
    assert_eq!(app.group_state.selected(), Some(2), "wraps to the last row");
    app.next_group();
    assert_eq!(app.group_state.selected(), Some(0), "wraps to the first row");
}

#[test]
fn expanding_adds_process_rows() {
    let mut app = app_with(vec![pm(1, "node", 3), pm(2, "node", 2), pm(3, "bun", 1)]);
    app.toggle_expand();
    assert_eq!(app.expanded_group, Some(0));
    app.row_map = build_row_map(&app.groups, app.expanded_group);
    assert_eq!(app.row_map.entries, vec![(0, None), (0, Some(0)), (0, Some(1)), (1, None)]);
    app.next_group();
    assert_eq!(app.selected_process(), Some((0, Some(0))));
    assert_eq!(app.kill_target(), Some(1));
    app.next_group();
    assert_eq!(app.kill_target(), Some(2));
    app.toggle_expand();
    assert_eq!(app.expanded_group, None);
}

#[test]
fn keys_drive_the_view() {
    let mut app = app_with(vec![pm(1, "zeta", 3), pm(2, "alpha", 2)]);
    assert!(matches!(app.handle_key(Key::Char('n')), Action::Nothing));
    assert_eq!(app.groups[0].name, "alpha");
    assert!(!app.sort_desc);
    app.handle_key(Key::Char('t'));
    assert_eq!(app.groups[0].name, "zeta");
    match app.handle_key(Key::Char('x')) {
        Action::Kill(pid) => assert_eq!(pid, 1),
        _ => panic!("expected a kill"),
    }
    match app.handle_key(Key::Char('d')) {
        Action::ShowDetail(p) => assert_eq!(p.pid, 1),
        _ => panic!("expected detail"),
    }
    assert!(app.detail_view_open);
    app.handle_key(Key::Char('j'));
    assert_eq!(app.group_state.selected(), Some(0), "keys other than q/Esc do nothing in the popup");
    app.handle_key(Key::Esc);
    assert!(!app.detail_view_open);
    app.handle_key(Key::Tab);
    assert_eq!(app.group_mode, GroupMode::Project);
    assert!(matches!(app.handle_key(Key::Char('r')), Action::Rescan));
    assert!(app.is_loading && app.groups.is_empty() && app.all_processes.is_empty());
    assert!(matches!(app.handle_key(Key::Char('r')), Action::Nothing));
    app.handle_key(Key::Char('q'));
    assert!(app.should_quit);
}

#[test]
fn clicks_select_rows_and_double_clicks_open_them() {
    let mut app = app_with(vec![pm(1, "node", 3), pm(2, "node", 2), pm(3, "bun", 1)]);
    app.table_area.y = 5;
    // Row 8 is the first table row (three lines below the top).
    app.handle_mouse(Mouse::LeftDown { row: 9, col: 0, at_ms: 1000 });
    assert_eq!(app.group_state.selected(), Some(1));
    app.handle_mouse(Mouse::LeftDown { row: 8, col: 0, at_ms: 1100 });
    assert_eq!(app.group_state.selected(), Some(0));
    assert_eq!(app.expanded_group, None);
    app.handle_mouse(Mouse::LeftDown { row: 8, col: 0, at_ms: 1300 });
    assert_eq!(app.expanded_group, Some(0), "double click expands a group");
    app.handle_mouse(Mouse::LeftDown { row: 2, col: 0, at_ms: 5000 });
    assert_eq!(app.group_state.selected(), Some(0), "clicks above the table change nothing");
    app.handle_mouse(Mouse::ScrollDown);
    assert_eq!(app.group_state.selected(), Some(1));
}

#[test]
fn scan_updates_fill_the_view() {
    let mut app = App::new("/h".to_string());
    app.group_mode = GroupMode::App;
    app.handle_scan_update(ScanUpdate::Processes(vec![pm(1, "a", 3), pm(2, "b", 2)]));
    assert_eq!(app.status_message.as_deref(), Some("Quick scan done — 2 procs"));
    assert_eq!(app.total_phys, 5);
    app.handle_scan_update(ScanUpdate::SwapBatch(vec![(2, 10)]));
    assert_eq!(app.total_swap, 10);
    assert_eq!(app.groups[0].name, "b");
    app.handle_scan_update(ScanUpdate::Done);
    assert_eq!(app.status_message.as_deref(), Some("Ready — 2 apps, 2 processes"));
    assert!(!app.is_loading);
}

#[test]
fn levels() {
    let mib = 1024 * 1024;
    assert_eq!(swap_level(512 * mib), SwapLevel::Low);
    assert_eq!(swap_level(512 * mib + 1), SwapLevel::Elevated);
    assert_eq!(swap_level(1024 * mib + 1), SwapLevel::High);
    assert_eq!(total_level(500 * mib - 1), TotalLevel::Light);
    assert_eq!(total_level(500 * mib), TotalLevel::Moderate);
    assert_eq!(total_level(510 * mib), TotalLevel::Moderate);
    assert_eq!(total_level(1024 * mib), TotalLevel::Notable);
    assert_eq!(total_level(2048 * mib), TotalLevel::Heavy);
    assert_eq!(total_level(4096 * mib), TotalLevel::Extreme);
}
