use std::time::Duration;

use sysmon::dashboard::{project, App, Effect, InputMode, Key, PopupState};
use sysmon::process::{ProcessInfo, ProcessSort};
use sysmon::snapshot::{MetricsSample, RawProcess};

fn raw(pid: u32, name: &str, mem: u64) -> RawProcess {
    RawProcess {
        pid,
        name: name.to_string(),
        user: None,
        cmd: String::new(),
        cpu: 0,
        mem_bytes: mem,
        parent: None,
    }
}

fn sample(processes: Vec<RawProcess>) -> MetricsSample {
    MetricsSample {
        cpu_model: String::new(),
        cpu_global: 5050,
        cpu_cores: Vec::new(),
        total_memory: 0,
        available_memory: 0,
        uptime: 0,
        networks: vec![(100, 10)],
        disk_sectors: None,
        disks: Vec::new(),
        sensors: Vec::new(),
        processes,
    }
}

fn app_with(processes: Vec<RawProcess>) -> App {
    let mut app = App::new(Duration::from_millis(1000));
    app.on_tick(sample(processes));
    app
}

fn shown_pids(app: &App) -> Vec<u32> {
    app.visible_processes().iter().map(|p| p.pid).collect()
}

#[test]
fn moves_on_empty_view_change_nothing() {
    let mut app = app_with(Vec::new());
    assert_eq!(app.on_key(Key::Down), Effect::Nothing);
    assert_eq!(app.selected, 0);
    assert_eq!(app.on_key(Key::Up), Effect::Nothing);
    assert_eq!(app.selected, 0);
    assert_eq!(app.input_mode, InputMode::Normal);
}

#[test]
fn cursor_clamps_at_both_ends() {
    let mut app = app_with(vec![raw(1, "a", 3), raw(2, "b", 2), raw(3, "c", 1)]);
    app.on_key(Key::Up);
    assert_eq!(app.selected, 0);
    app.on_key(Key::Down);
    app.on_key(Key::Down);
    app.on_key(Key::Down);
    app.on_key(Key::Down);
    assert_eq!(app.selected, 2);
}

#[test]
fn kill_flow_cancel_and_confirm() {
    let mut app = app_with(vec![raw(42, "x", 1)]);
    assert_eq!(app.on_key(Key::Char('k')), Effect::Nothing);
    assert_eq!(app.input_mode, InputMode::Popup);
    assert!(matches!(app.popup, PopupState::Kill { pid: 42, ref name } if name == "x"));
    assert_eq!(app.on_key(Key::Esc), Effect::Nothing);
    assert_eq!(app.input_mode, InputMode::Normal);
    assert!(matches!(app.popup, PopupState::Closed));
    app.on_key(Key::Char('k'));
    assert_eq!(app.on_key(Key::Char('y')), Effect::Kill(42));
    assert_eq!(app.input_mode, InputMode::Normal);
    assert!(matches!(app.popup, PopupState::Closed));
    assert_eq!(app.on_key(Key::Enter), Effect::Nothing);
}

#[test]
fn kill_request_uses_filtered_view() {
    let mut app = app_with(vec![raw(10, "alpha", 9), raw(20, "beta", 1)]);
    for c in "beta".chars() {
        if c == 'b' {
            app.on_key(Key::Char('/'));
        }
        app.on_key(Key::Char(c));
    }
    app.on_key(Key::Enter);
    assert_eq!(app.search_query, "beta");
    assert_eq!(shown_pids(&app), vec![20]);
    app.on_key(Key::Char('k'));
    assert!(matches!(app.popup, PopupState::Kill { pid: 20, .. }));
}

#[test]
fn kill_request_without_rows_does_nothing() {
    let mut app = app_with(Vec::new());
    app.on_key(Key::Char('k'));
    assert_eq!(app.input_mode, InputMode::Normal);
    assert!(matches!(app.popup, PopupState::Closed));
}

#[test]
fn editing_appends_and_removes_characters() {
    let mut app = app_with(Vec::new());
    app.on_key(Key::Char('/'));
    assert_eq!(app.input_mode, InputMode::Editing);
    app.on_key(Key::Backspace);
    assert_eq!(app.search_query, "");
    app.on_key(Key::Char('q'));
    app.on_key(Key::Char('k'));
    assert_eq!(app.search_query, "qk");
    app.on_key(Key::Backspace);
    assert_eq!(app.search_query, "q");
    assert!(!app.should_quit());
    app.on_key(Key::Esc);
    assert_eq!(app.input_mode, InputMode::Normal);
}

#[test]
fn help_dialog_and_quit() {
    let mut app = app_with(Vec::new());
    app.on_key(Key::Char('?'));
    assert!(matches!(app.popup, PopupState::Help));
    assert_eq!(app.on_key(Key::Char('x')), Effect::Nothing);
    assert_eq!(app.input_mode, InputMode::Popup);
    assert_eq!(app.on_key(Key::Enter), Effect::Nothing);
    assert_eq!(app.input_mode, InputMode::Normal);
    app.on_key(Key::Char('Q'));
    assert!(app.should_quit());
    let mut other = app_with(Vec::new());
    other.request_quit();
    assert!(other.should_quit());
}

#[test]
fn sort_cycles_keys_and_direction_toggles() {
    let mut app = app_with(vec![raw(1, "a", 500), raw(2, "b", 900), raw(3, "c", 100)]);
    assert_eq!(app.sys().sort_by, ProcessSort::Cpu);
    app.on_key(Key::Tab);
    assert_eq!(app.sys().sort_by, ProcessSort::Memory);
    assert_eq!(shown_pids(&app), vec![2, 1, 3]);
    app.on_key(Key::Char('r'));
    assert_eq!(shown_pids(&app), vec![3, 1, 2]);
    app.on_key(Key::Char('s'));
    assert_eq!(app.sys().sort_by, ProcessSort::Pid);
    assert_eq!(shown_pids(&app), vec![1, 2, 3]);
}

#[test]
fn tick_records_history_and_clamps_cursor() {
    let mut app = app_with(vec![raw(1, "a", 1), raw(2, "b", 2), raw(3, "c", 3)]);
    app.on_key(Key::Down);
    app.on_key(Key::Down);
    assert_eq!(app.selected, 2);
    app.on_tick(sample(vec![raw(1, "a", 1)]));
    assert_eq!(app.selected, 0);
    assert_eq!(app.cpu_history.values()[99], 50);
    assert_eq!(app.net_rx_history.values()[99], 0);
}

#[test]
fn projection_filters_then_sorts() {
    let rows = vec![
        ProcessInfo { pid: 17, name: "a".to_string(), user: String::new(), cmd: String::new(), cpu: 0, mem_bytes: 1, parent: None, indent: 0 },
        ProcessInfo { pid: 27, name: "b".to_string(), user: String::new(), cmd: String::new(), cpu: 0, mem_bytes: 2, parent: None, indent: 0 },
        ProcessInfo { pid: 3, name: "c".to_string(), user: String::new(), cmd: String::new(), cpu: 0, mem_bytes: 3, parent: None, indent: 0 },
    ];
    let shown: Vec<u32> = project(&rows, "7", ProcessSort::Memory, true).iter().map(|p| p.pid).collect();
    assert_eq!(shown, vec![27, 17]);
    let all: Vec<u32> = project(&rows, "", ProcessSort::Tree, true).iter().map(|p| p.pid).collect();
    assert_eq!(all, vec![17, 27, 3]);
}

#[test]
fn cursor_follows_process_when_order_changes() {
    let mut app = app_with(vec![raw(1, "a", 500), raw(2, "b", 900), raw(3, "c", 100)]);
    app.on_key(Key::Down);
    assert_eq!(app.selected, 1);
    assert_eq!(shown_pids(&app)[app.selected], 2);
    app.on_key(Key::Tab);
    assert_eq!(shown_pids(&app), vec![2, 1, 3]);
    assert_eq!(app.selected, 0);
    app.on_key(Key::Char('r'));
    assert_eq!(app.selected, 2);
    app.on_key(Key::Char('/'));
    app.on_key(Key::Char('b'));
    assert_eq!(shown_pids(&app), vec![2]);
    assert_eq!(app.selected, 0);
    app.on_key(Key::Backspace);
    assert_eq!(app.selected, 2);
    app.on_tick(sample(vec![raw(2, "b", 900), raw(4, "d", 50)]));
    assert_eq!(shown_pids(&app), vec![4, 2]);
    assert_eq!(app.selected, 1);
}

#[test]
fn kill_of_vanished_process_is_a_no_op() {
    let mut app = app_with(vec![raw(42, "x", 1), raw(7, "y", 2)]);
    app.on_key(Key::Char('/'));
    app.on_key(Key::Char('x'));
    app.on_key(Key::Enter);
    app.on_key(Key::Char('k'));
    assert!(matches!(app.popup, PopupState::Kill { pid: 42, .. }));
    app.on_tick(sample(vec![raw(7, "y", 2)]));
    assert_eq!(app.on_key(Key::Char('Y')), Effect::Nothing);
    assert_eq!(app.input_mode, InputMode::Normal);
    assert_eq!(app.sys().kill_process(7), Effect::Kill(7));
    assert_eq!(app.sys().kill_process(42), Effect::Nothing);
}

#[test]
fn next_and_previous_on_empty_view() {
    let mut app = app_with(vec![raw(5, "x", 1)]);
    app.search_query = "nomatch".to_string();
    app.next();
    assert_eq!(app.selected, 0);
    app.previous();
    assert_eq!(app.selected, 0);
    app.search_query.clear();
    app.next();
    assert_eq!(app.selected, 0);
}

#[test]
fn new_dashboard_reports_no_traffic() {
    let app = App::new(Duration::from_millis(1000));
    assert_eq!(app.sys().rx_rate, 0);
    assert_eq!(app.sys().tx_rate, 0);
    assert!(app.sys().processes().is_empty());
    assert_eq!(app.selected, 0);
    assert!(!app.should_quit());
}
