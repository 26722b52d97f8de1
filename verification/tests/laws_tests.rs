use memo::app::{build_row_map, App, Key, SortColumn};
use memo::detail::{backfill_cwds, parse_lsof_cwds};
use memo::group::{family_is_stable, find_marker_up_among, group_by_roots, runtime_family, GroupMode};
use memo::scanner::ProcessMemory;

const HOME: &str = "/tmp/memo-test-home";

fn pm(pid: i32, name: &str, rss: u64, swap: u64, cwd: &str) -> ProcessMemory {
    ProcessMemory {
        pid,
        name: name.into(),
        cmdline: String::new(),
        cwd: cwd.into(),
        rss,
        swap,
        threads: 1,
    }
}

fn sample() -> Vec<ProcessMemory> {
    vec![
        pm(1, "node", 300, 10, "/tmp/memo-test-home/web"),
        pm(2, "zsh", 5, 1, "/tmp/memo-test-home/web/src"),
        pm(3, "Slack Helper (GPU)", 700, 90, "/"),
        pm(4, "bun", 40, 0, "/tmp/memo-test-home/api"),
        pm(5, "node", 60, 7, "/"),
    ]
}

fn roots() -> Vec<Option<String>> {
    let web = Some(format!("{}/web", HOME));
    vec![web.clone(), web, None, Some(format!("{}/api", HOME)), None]
}

#[test]
fn group_totals_add_up_in_both_modes() {
    let procs = sample();
    let rss: u64 = procs.iter().map(|p| p.rss).sum();
    let swap: u64 = procs.iter().map(|p| p.swap).sum();
    for mode in [GroupMode::App, GroupMode::Project] {
        let groups = group_by_roots(&procs, mode, HOME, &roots());
        assert_eq!(groups.iter().map(|g| g.total_rss).sum::<u64>(), rss);
        assert_eq!(groups.iter().map(|g| g.total_swap).sum::<u64>(), swap);
        let mut pids: Vec<i32> = groups.iter().flat_map(|g| g.processes.iter().map(|p| p.pid)).collect();
        pids.sort();
        assert_eq!(pids, vec![1, 2, 3, 4, 5]);
    }
    let project = group_by_roots(&procs, GroupMode::Project, HOME, &roots());
    let names: Vec<&str> = project.iter().map(|g| g.name.as_str()).collect();
    assert_eq!(names, vec!["Slack", "~/web", "node", "~/api"]);
}

#[test]
fn nearest_marker_is_the_root() {
    let existing = vec![
        format!("{}/mono/.git", HOME),
        format!("{}/mono/pkg/package.json", HOME),
    ];
    let deep = format!("{}/mono/pkg/src/lib", HOME);
    assert_eq!(find_marker_up_among(&deep, HOME, &existing), Some(format!("{}/mono/pkg", HOME)));
    let shallow = format!("{}/mono/docs", HOME);
    assert_eq!(find_marker_up_among(&shallow, HOME, &existing), Some(format!("{}/mono", HOME)));
    let excluded = format!("{}/.cargo/registry/src", HOME);
    let cargo = vec![format!("{}/.cargo/registry/src/Cargo.toml", HOME)];
    assert_eq!(find_marker_up_among(&excluded, HOME, &cargo), None);
}

fn app_of(procs: Vec<ProcessMemory>) -> App {
    let mut app = App::new(HOME.to_string());
    app.group_mode = GroupMode::App;
    app.set_processes(procs);
    app.row_map = build_row_map(&app.groups, app.expanded_group);
    app
}

#[test]
fn moves_stay_in_table_and_undo_each_other() {
    let mut app = app_of(sample());
    let len = app.row_map.entries.len();
    assert_eq!(len, 4);
    for _ in 0..7 {
        let before = app.group_state.selected();
        app.next_group();
        assert!(app.group_state.selected().unwrap() < len);
        app.prev_group();
        assert_eq!(app.group_state.selected(), before);
        app.next_group();
    }
    for _ in 0..5 {
        app.prev_group();
        assert!(app.group_state.selected().unwrap() < len);
    }
}

#[test]
fn tab_twice_restores_mode_and_processes() {
    let mut app = app_of(sample());
    let pids: Vec<i32> = app.all_processes.iter().map(|p| p.pid).collect();
    app.handle_key(Key::Tab);
    assert_eq!(app.group_mode, GroupMode::Project);
    app.handle_key(Key::Tab);
    assert_eq!(app.group_mode, GroupMode::App);
    let after: Vec<i32> = app.all_processes.iter().map(|p| p.pid).collect();
    assert_eq!(after, pids);
}

#[test]
fn sorting_rearranges_groups() {
    let mut app = app_of(sample());
    let mut before: Vec<String> = app.groups.iter().map(|g| g.name.clone()).collect();
    app.sort_column = SortColumn::Name;
    app.sort_desc = false;
    app.sort_groups();
    let after: Vec<String> = app.groups.iter().map(|g| g.name.clone()).collect();
    assert_eq!(after, vec!["Slack", "bun", "node", "zsh"]);
    before.sort();
    let mut sorted_after = after.clone();
    sorted_after.sort();
    assert_eq!(before, sorted_after);
    app.sort_column = SortColumn::Swap;
    app.sort_desc = true;
    app.sort_groups();
    let swaps: Vec<u64> = app.groups.iter().map(|g| g.total_swap).collect();
    assert_eq!(swaps, vec![90, 17, 1, 0]);
}

#[test]
fn lsof_bulk_output_gives_pid_directories() {
    let out = "p101\nfcwd\nn/Users/me/web\np202\nfcwd\nn/\npxyz\nn/ignored\np303\nn/Users/me/api\n";
    let found = parse_lsof_cwds(out);
    assert_eq!(
        found,
        vec![
            (101, "/Users/me/web".to_string()),
            (202, "/".to_string()),
            (303, "/Users/me/api".to_string()),
        ]
    );
    assert!(parse_lsof_cwds("n/no/pid/yet\n").is_empty());
}

#[test]
fn backfill_fills_only_empty_directories() {
    let mut procs = vec![pm(101, "a", 1, 0, ""), pm(202, "b", 2, 0, "/kept"), pm(404, "c", 3, 0, "")];
    let found = vec![
        (101, "/first".to_string()),
        (202, "/other".to_string()),
        (101, "/second".to_string()),
    ];
    backfill_cwds(&mut procs, &found);
    assert_eq!(procs[0].cwd, "/second");
    assert_eq!(procs[1].cwd, "/kept");
    assert_eq!(procs[2].cwd, "");
    assert_eq!(procs[0].rss, 1);
    assert_eq!(procs[2].pid, 404);
}

#[test]
fn every_group_holds_a_process() {
    for mode in [GroupMode::App, GroupMode::Project] {
        let groups = group_by_roots(&sample(), mode, HOME, &roots());
        assert!(groups.iter().all(|g| !g.processes.is_empty()));
    }
}

#[test]
fn runtime_family_of_a_family_is_itself() {
    for name in ["-zsh", "node-repl", "npx", "python3.11", "Bun", "rails", "vite", "go"] {
        let f = runtime_family(name);
        assert_eq!(runtime_family(&f), f);
        assert!(family_is_stable(name));
    }
}

#[test]
fn grouping_the_same_input_twice_gives_the_same_groups() {
    for mode in [GroupMode::App, GroupMode::Project] {
        let a = group_by_roots(&sample(), mode, HOME, &roots());
        let b = group_by_roots(&sample(), mode, HOME, &roots());
        assert_eq!(a.len(), b.len());
        for (x, y) in a.iter().zip(b.iter()) {
            assert_eq!(x.name, y.name);
            assert_eq!(x.kind, y.kind);
            assert_eq!(x.total_rss, y.total_rss);
            assert_eq!(x.total_swap, y.total_swap);
            let px: Vec<i32> = x.processes.iter().map(|p| p.pid).collect();
            let py: Vec<i32> = y.processes.iter().map(|p| p.pid).collect();
            assert_eq!(px, py);
        }
    }
}
